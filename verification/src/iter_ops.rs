//! The merge-join set-algebra engine.
//!
//! All four operators — union, intersection, difference, symmetric
//! difference — are one linear merge over two ascending streams,
//! parameterised by a policy ([`SetOp`]) that says what to emit when the
//! left key is smaller, when the right key is smaller, when the keys are
//! equal, and which side's tail survives exhaustion of the other. The merge
//! is specified once, by [`merge_seq`], and [`lemma_merge_seq_props`] proves
//! that its output is again ascending and holds exactly the views the
//! operator calls for.

use vstd::prelude::*;

use crate::order::{
    ascending, lemma_ascending_cons, lemma_ascending_head_min, lemma_ascending_skip,
    lemma_ascending_tail_above, lemma_contains_step, lemma_order_laws, lemma_views_cons,
    lemma_views_skip, views_of, Duplicable, TotalOrder,
};
use crate::ordered_iterators::{pairs_of, MapIter, SetIter, SkipAheadIterator, ToList, ToSet};
use crate::ordered_set::OrderedSet;
use crate::position::{
    first_after, first_at_or_after, lemma_first_after, lemma_first_at_or_after,
};

verus! {

broadcast use crate::order::group_views_axioms;

/// The four merge policies.
#[derive(Clone, Copy, Debug, PartialEq, Eq)]
pub enum SetOp {
    Union,
    Intersection,
    Difference,
    SymmetricDifference,
}

/// The policy emits a key held only by the left stream.
pub open spec fn keeps_lone_left(op: SetOp) -> bool {
    op != SetOp::Intersection
}

/// The policy emits a key held only by the right stream.
pub open spec fn keeps_lone_right(op: SetOp) -> bool {
    op == SetOp::Union || op == SetOp::SymmetricDifference
}

/// The policy emits a key held by both streams.
pub open spec fn keeps_shared(op: SetOp) -> bool {
    op == SetOp::Union || op == SetOp::Intersection
}

/// Whether the policy keeps a view, given on which sides it is held.
pub open spec fn op_keeps(op: SetOp, in_left: bool, in_right: bool) -> bool {
    match op {
        SetOp::Union => in_left || in_right,
        SetOp::Intersection => in_left && in_right,
        SetOp::Difference => in_left && !in_right,
        SetOp::SymmetricDifference => in_left != in_right,
    }
}

/// The merge of two element sequences under a policy: one pass of the
/// three-way comparison of the leading views, emitting the left element on
/// equal views.
pub open spec fn merge_seq<T: TotalOrder>(op: SetOp, a: Seq<T>, b: Seq<T>) -> Seq<T>
    decreases a.len() + b.len(),
{
    if a.len() == 0 && b.len() == 0 {
        Seq::empty()
    } else if a.len() == 0 {
        if keeps_lone_right(op) {
            b
        } else {
            Seq::empty()
        }
    } else if b.len() == 0 {
        if keeps_lone_left(op) {
            a
        } else {
            Seq::empty()
        }
    } else if T::below(a[0].deep_view(), b[0].deep_view()) {
        if keeps_lone_left(op) {
            seq![a[0]] + merge_seq(op, a.drop_first(), b)
        } else {
            merge_seq(op, a.drop_first(), b)
        }
    } else if T::below(b[0].deep_view(), a[0].deep_view()) {
        if keeps_lone_right(op) {
            seq![b[0]] + merge_seq(op, a, b.drop_first())
        } else {
            merge_seq(op, a, b.drop_first())
        }
    } else {
        if keeps_shared(op) {
            seq![a[0]] + merge_seq(op, a.drop_first(), b.drop_first())
        } else {
            merge_seq(op, a.drop_first(), b.drop_first())
        }
    }
}

/// The merge of two ascending sequences is ascending, and holds exactly the
/// views that the policy keeps.
pub proof fn lemma_merge_seq_props<T: TotalOrder>(op: SetOp, a: Seq<T>, b: Seq<T>)
    requires
        ascending::<T>(views_of(a)),
        ascending::<T>(views_of(b)),
    ensures
        ascending::<T>(views_of(merge_seq(op, a, b))),
        forall|v: T::V| #[trigger] views_of(merge_seq(op, a, b)).contains(v) <==> op_keeps(
            op,
            views_of(a).contains(v),
            views_of(b).contains(v),
        ),
    decreases a.len() + b.len(),
{
    lemma_order_laws::<T>();
    let va = views_of(a);
    let vb = views_of(b);
    let m = merge_seq(op, a, b);
    let vm = views_of(m);
    if a.len() == 0 && b.len() == 0 {
        assert forall|v: T::V| #[trigger] vm.contains(v) <==> op_keeps(
            op,
            va.contains(v),
            vb.contains(v),
        ) by {
            assert(!va.contains(v));
            assert(!vb.contains(v));
            assert(!vm.contains(v));
        }
    } else if a.len() == 0 {
        assert forall|v: T::V| #[trigger] vm.contains(v) <==> op_keeps(
            op,
            va.contains(v),
            vb.contains(v),
        ) by {
            assert(!va.contains(v));
            if !keeps_lone_right(op) {
                assert(!vm.contains(v));
            }
        }
    } else if b.len() == 0 {
        assert forall|v: T::V| #[trigger] vm.contains(v) <==> op_keeps(
            op,
            va.contains(v),
            vb.contains(v),
        ) by {
            assert(!vb.contains(v));
            if !keeps_lone_left(op) {
                assert(!vm.contains(v));
            }
        }
    } else {
        let ha = a[0].deep_view();
        let hb = b[0].deep_view();
        let ta = a.drop_first();
        let tb = b.drop_first();
        lemma_views_skip(a, 1);
        lemma_views_skip(b, 1);
        assert(views_of(ta) =~= va.drop_first());
        assert(views_of(tb) =~= vb.drop_first());
        lemma_ascending_skip::<T>(va, 1);
        lemma_ascending_skip::<T>(vb, 1);
        assert(va.drop_first() == va.skip(1));
        assert(vb.drop_first() == vb.skip(1));
        if T::below(ha, hb) {
            lemma_merge_seq_props(op, ta, b);
            let m0 = merge_seq(op, ta, b);
            lemma_merge_step::<T>(op, a, b, ha, m0);
        } else if T::below(hb, ha) {
            lemma_merge_seq_props(op, a, tb);
            let m0 = merge_seq(op, a, tb);
            lemma_merge_step_right::<T>(op, a, b, hb, m0);
        } else {
            assert(ha == hb);
            lemma_merge_seq_props(op, ta, tb);
            let m0 = merge_seq(op, ta, tb);
            lemma_merge_step_shared::<T>(op, a, b, ha, m0);
        }
    }
}

/// The inductive step of [`lemma_merge_seq_props`] when the left view leads.
proof fn lemma_merge_step<T: TotalOrder>(op: SetOp, a: Seq<T>, b: Seq<T>, ha: T::V, m0: Seq<T>)
    requires
        ascending::<T>(views_of(a)),
        ascending::<T>(views_of(b)),
        a.len() > 0,
        b.len() > 0,
        ha == a[0].deep_view(),
        T::below(ha, b[0].deep_view()),
        m0 == merge_seq(op, a.drop_first(), b),
        ascending::<T>(views_of(m0)),
        forall|v: T::V| #[trigger] views_of(m0).contains(v) <==> op_keeps(
            op,
            views_of(a.drop_first()).contains(v),
            views_of(b).contains(v),
        ),
    ensures
        ascending::<T>(views_of(merge_seq(op, a, b))),
        forall|v: T::V| #[trigger] views_of(merge_seq(op, a, b)).contains(v) <==> op_keeps(
            op,
            views_of(a).contains(v),
            views_of(b).contains(v),
        ),
{
    lemma_order_laws::<T>();
    let va = views_of(a);
    let vb = views_of(b);
    let vm0 = views_of(m0);
    lemma_views_skip(a, 1);
    assert(views_of(a.drop_first()) =~= va.drop_first());
    lemma_ascending_skip::<T>(va, 1);
    // `ha` is below everything the sub-merge holds.
    assert forall|v: T::V| #[trigger] vm0.contains(v) implies T::below(ha, v) by {
        if va.drop_first().contains(v) {
            lemma_ascending_tail_above::<T>(va, v);
        } else {
            assert(vb.contains(v));
            lemma_ascending_head_min::<T>(vb, v);
        }
    }
    // `ha` itself is not held by the right stream.
    assert(!vb.contains(ha)) by {
        if vb.contains(ha) {
            lemma_ascending_head_min::<T>(vb, ha);
        }
    }
    assert(!va.drop_first().contains(ha)) by {
        if va.drop_first().contains(ha) {
            lemma_ascending_tail_above::<T>(va, ha);
        }
    }
    let m = merge_seq(op, a, b);
    if keeps_lone_left(op) {
        assert(m == seq![a[0]] + m0);
        lemma_views_cons(a[0], m0);
        let vm = views_of(m);
        assert(vm =~= seq![ha] + vm0);
        lemma_ascending_cons::<T>(ha, vm0);
        assert forall|v: T::V| #[trigger] vm.contains(v) <==> op_keeps(
            op,
            va.contains(v),
            vb.contains(v),
        ) by {
            lemma_contains_step(vm, v);
            lemma_contains_step(va, v);
            assert(vm.drop_first() =~= vm0);
            assert(va[0] == ha);
            assert(vm[0] == ha);
            if v == ha {
                assert(vm.contains(v));
                assert(va.contains(v));
            }
        }
    } else {
        assert(m == m0);
        assert forall|v: T::V| #[trigger] views_of(m).contains(v) <==> op_keeps(
            op,
            va.contains(v),
            vb.contains(v),
        ) by {
            lemma_contains_step(va, v);
            assert(va[0] == ha);
            if v == ha {
                assert(!vm0.contains(v));
                assert(va.contains(v));
            }
        }
    }
}

/// The inductive step of [`lemma_merge_seq_props`] when the right view
/// leads.
proof fn lemma_merge_step_right<T: TotalOrder>(
    op: SetOp,
    a: Seq<T>,
    b: Seq<T>,
    hb: T::V,
    m0: Seq<T>,
)
    requires
        ascending::<T>(views_of(a)),
        ascending::<T>(views_of(b)),
        a.len() > 0,
        b.len() > 0,
        hb == b[0].deep_view(),
        T::below(hb, a[0].deep_view()),
        m0 == merge_seq(op, a, b.drop_first()),
        ascending::<T>(views_of(m0)),
        forall|v: T::V| #[trigger] views_of(m0).contains(v) <==> op_keeps(
            op,
            views_of(a).contains(v),
            views_of(b.drop_first()).contains(v),
        ),
    ensures
        ascending::<T>(views_of(merge_seq(op, a, b))),
        forall|v: T::V| #[trigger] views_of(merge_seq(op, a, b)).contains(v) <==> op_keeps(
            op,
            views_of(a).contains(v),
            views_of(b).contains(v),
        ),
{
    lemma_order_laws::<T>();
    let va = views_of(a);
    let vb = views_of(b);
    let vm0 = views_of(m0);
    lemma_views_skip(b, 1);
    assert(views_of(b.drop_first()) =~= vb.drop_first());
    lemma_ascending_skip::<T>(vb, 1);
    assert forall|v: T::V| #[trigger] vm0.contains(v) implies T::below(hb, v) by {
        if vb.drop_first().contains(v) {
            lemma_ascending_tail_above::<T>(vb, v);
        } else {
            assert(va.contains(v));
            lemma_ascending_head_min::<T>(va, v);
        }
    }
    assert(!va.contains(hb)) by {
        if va.contains(hb) {
            lemma_ascending_head_min::<T>(va, hb);
        }
    }
    assert(!vb.drop_first().contains(hb)) by {
        if vb.drop_first().contains(hb) {
            lemma_ascending_tail_above::<T>(vb, hb);
        }
    }
    let m = merge_seq(op, a, b);
    if keeps_lone_right(op) {
        assert(m == seq![b[0]] + m0);
        lemma_views_cons(b[0], m0);
        let vm = views_of(m);
        assert(vm =~= seq![hb] + vm0);
        lemma_ascending_cons::<T>(hb, vm0);
        assert forall|v: T::V| #[trigger] vm.contains(v) <==> op_keeps(
            op,
            va.contains(v),
            vb.contains(v),
        ) by {
            lemma_contains_step(vm, v);
            lemma_contains_step(vb, v);
            assert(vm.drop_first() =~= vm0);
            assert(vb[0] == hb);
            assert(vm[0] == hb);
            if v == hb {
                assert(vm.contains(v));
                assert(vb.contains(v));
            }
        }
    } else {
        assert(m == m0);
        assert forall|v: T::V| #[trigger] views_of(m).contains(v) <==> op_keeps(
            op,
            va.contains(v),
            vb.contains(v),
        ) by {
            lemma_contains_step(vb, v);
            assert(vb[0] == hb);
            if v == hb {
                assert(!vm0.contains(v));
                assert(vb.contains(v));
            }
        }
    }
}

/// The inductive step of [`lemma_merge_seq_props`] when the leading views
/// are equal.
proof fn lemma_merge_step_shared<T: TotalOrder>(
    op: SetOp,
    a: Seq<T>,
    b: Seq<T>,
    h: T::V,
    m0: Seq<T>,
)
    requires
        ascending::<T>(views_of(a)),
        ascending::<T>(views_of(b)),
        a.len() > 0,
        b.len() > 0,
        h == a[0].deep_view(),
        h == b[0].deep_view(),
        m0 == merge_seq(op, a.drop_first(), b.drop_first()),
        ascending::<T>(views_of(m0)),
        forall|v: T::V| #[trigger] views_of(m0).contains(v) <==> op_keeps(
            op,
            views_of(a.drop_first()).contains(v),
            views_of(b.drop_first()).contains(v),
        ),
    ensures
        ascending::<T>(views_of(merge_seq(op, a, b))),
        forall|v: T::V| #[trigger] views_of(merge_seq(op, a, b)).contains(v) <==> op_keeps(
            op,
            views_of(a).contains(v),
            views_of(b).contains(v),
        ),
{
    lemma_order_laws::<T>();
    let va = views_of(a);
    let vb = views_of(b);
    let vm0 = views_of(m0);
    lemma_views_skip(a, 1);
    lemma_views_skip(b, 1);
    assert(views_of(a.drop_first()) =~= va.drop_first());
    assert(views_of(b.drop_first()) =~= vb.drop_first());
    lemma_ascending_skip::<T>(va, 1);
    lemma_ascending_skip::<T>(vb, 1);
    assert forall|v: T::V| #[trigger] vm0.contains(v) implies T::below(h, v) by {
        if va.drop_first().contains(v) {
            lemma_ascending_tail_above::<T>(va, v);
        } else {
            assert(vb.drop_first().contains(v));
            lemma_ascending_tail_above::<T>(vb, v);
        }
    }
    assert(!va.drop_first().contains(h)) by {
        if va.drop_first().contains(h) {
            lemma_ascending_tail_above::<T>(va, h);
        }
    }
    assert(!vb.drop_first().contains(h)) by {
        if vb.drop_first().contains(h) {
            lemma_ascending_tail_above::<T>(vb, h);
        }
    }
    let m = merge_seq(op, a, b);
    if keeps_shared(op) {
        assert(m == seq![a[0]] + m0);
        lemma_views_cons(a[0], m0);
        let vm = views_of(m);
        assert(vm =~= seq![h] + vm0);
        lemma_ascending_cons::<T>(h, vm0);
        assert forall|v: T::V| #[trigger] vm.contains(v) <==> op_keeps(
            op,
            va.contains(v),
            vb.contains(v),
        ) by {
            lemma_contains_step(vm, v);
            lemma_contains_step(va, v);
            lemma_contains_step(vb, v);
            assert(vm.drop_first() =~= vm0);
            assert(va[0] == h);
            assert(vb[0] == h);
            assert(vm[0] == h);
            if v == h {
                assert(vm.contains(v));
                assert(va.contains(v));
                assert(vb.contains(v));
            }
        }
    } else {
        assert(m == m0);
        assert forall|v: T::V| #[trigger] views_of(m).contains(v) <==> op_keeps(
            op,
            va.contains(v),
            vb.contains(v),
        ) by {
            lemma_contains_step(va, v);
            lemma_contains_step(vb, v);
            assert(va[0] == h);
            assert(vb[0] == h);
            if v == h {
                assert(!vm0.contains(v));
                assert(va.contains(v));
                assert(vb.contains(v));
            }
        }
    }
}

/// Decide [`keeps_lone_left`].
fn take_lone_left(op: SetOp) -> (r: bool)
    ensures
        r == keeps_lone_left(op),
{
    match op {
        SetOp::Intersection => false,
        _ => true,
    }
}

/// Decide [`keeps_lone_right`].
fn take_lone_right(op: SetOp) -> (r: bool)
    ensures
        r == keeps_lone_right(op),
{
    match op {
        SetOp::Union => true,
        SetOp::SymmetricDifference => true,
        _ => false,
    }
}

/// Decide [`keeps_shared`].
fn take_shared(op: SetOp) -> (r: bool)
    ensures
        r == keeps_shared(op),
{
    match op {
        SetOp::Union => true,
        SetOp::Intersection => true,
        _ => false,
    }
}

/// A lazy merge of two ascending element streams under a policy: the
/// engine behind union, intersection, difference and symmetric difference,
/// for set against set and for set against the key stream of a map.
pub struct MergeIter<'a, T: TotalOrder> {
    op: SetOp,
    left: SetIter<'a, T>,
    right: SetIter<'a, T>,
}

impl<'a, T: TotalOrder> MergeIter<'a, T> {
    /// The policy being merged under.
    pub closed spec fn policy(self) -> SetOp {
        self.op
    }

    /// What the left stream has not yet consumed.
    pub closed spec fn left_rem(self) -> Seq<T> {
        self.left.remaining()
    }

    /// What the right stream has not yet consumed.
    pub closed spec fn right_rem(self) -> Seq<T> {
        self.right.remaining()
    }

    /// The elements this merge will still produce.
    pub open spec fn out(self) -> Seq<T> {
        merge_seq(self.policy(), self.left_rem(), self.right_rem())
    }

    /// Both cursors are within bounds.
    pub closed spec fn wf(self) -> bool {
        self.left.wf() && self.right.wf()
    }

    /// Both streams are still ascending.
    pub open spec fn srt(self) -> bool {
        ascending::<T>(views_of(self.left_rem())) && ascending::<T>(views_of(self.right_rem()))
    }

    /// A merge of `left` against `right` under `op`.
    pub fn new(op: SetOp, left: SetIter<'a, T>, right: SetIter<'a, T>) -> (it: Self)
        requires
            left.wf(),
            right.wf(),
        ensures
            it.wf(),
            it.policy() == op,
            it.left_rem() == left.remaining(),
            it.right_rem() == right.remaining(),
    {
        Self { op, left, right }
    }

    /// The next merged element, advancing whichever streams the policy
    /// consumed; nothing once the merge is exhausted.
    pub fn next(&mut self) -> (r: Option<&'a T>)
        requires
            old(self).wf(),
            old(self).srt(),
        ensures
            final(self).wf(),
            final(self).srt(),
            final(self).policy() == old(self).policy(),
            match r {
                Some(x) => old(self).out().len() > 0 && *x == old(self).out()[0]
                    && final(self).out() == old(self).out().drop_first(),
                None => old(self).out().len() == 0 && final(self).out().len() == 0,
            },
    {
        proof {
            lemma_order_laws::<T>();
        }
        loop
            invariant
                self.wf(),
                self.srt(),
                self.policy() == old(self).policy(),
                merge_seq(self.policy(), self.left_rem(), self.right_rem()) == old(self).out(),
            decreases self.left_rem().len() + self.right_rem().len(),
        {
            let ghost a = self.left_rem();
            let ghost b = self.right_rem();
            proof {
                if a.len() > 0 {
                    lemma_views_skip(a, 1);
                    lemma_ascending_skip::<T>(views_of(a), 1);
                    assert(views_of(a.drop_first()) =~= views_of(a).drop_first());
                }
                if b.len() > 0 {
                    lemma_views_skip(b, 1);
                    lemma_ascending_skip::<T>(views_of(b), 1);
                    assert(views_of(b.drop_first()) =~= views_of(b).drop_first());
                }
            }
            let lp = self.left.peek();
            let rp = self.right.peek();
            match (lp, rp) {
                (None, None) => {
                    return None;
                },
                (Some(l), None) => {
                    if take_lone_left(self.op) {
                        self.left.next();
                        proof {
                            assert(merge_seq(self.policy(), a, b) == a);
                            assert(merge_seq(self.policy(), a.drop_first(), b) == a.drop_first());
                        }
                        return Some(l);
                    } else {
                        return None;
                    }
                },
                (None, Some(r0)) => {
                    if take_lone_right(self.op) {
                        self.right.next();
                        proof {
                            assert(merge_seq(self.policy(), a, b) == b);
                            assert(merge_seq(self.policy(), a, b.drop_first()) == b.drop_first());
                        }
                        return Some(r0);
                    } else {
                        return None;
                    }
                },
                (Some(l), Some(r0)) => {
                    let ghost m0 = merge_seq(self.policy(), a, b);
                    if l.lt(r0) {
                        self.left.next();
                        if take_lone_left(self.op) {
                            proof {
                                assert(m0 == seq![a[0]] + merge_seq(self.policy(), a.drop_first(), b));
                                assert(m0.drop_first() =~= merge_seq(
                                    self.policy(),
                                    a.drop_first(),
                                    b,
                                ));
                            }
                            return Some(l);
                        } else {
                            proof {
                                lemma_views_skip(a, 1);
                                lemma_ascending_skip::<T>(views_of(a), 1);
                                assert(views_of(a.drop_first()) =~= views_of(a).drop_first());
                            }
                        }
                    } else if r0.lt(l) {
                        self.right.next();
                        if take_lone_right(self.op) {
                            proof {
                                assert(m0 == seq![b[0]] + merge_seq(self.policy(), a, b.drop_first()));
                                assert(m0.drop_first() =~= merge_seq(
                                    self.policy(),
                                    a,
                                    b.drop_first(),
                                ));
                            }
                            return Some(r0);
                        } else {
                            proof {
                                lemma_views_skip(b, 1);
                                lemma_ascending_skip::<T>(views_of(b), 1);
                                assert(views_of(b.drop_first()) =~= views_of(b).drop_first());
                            }
                        }
                    } else {
                        self.left.next();
                        self.right.next();
                        if take_shared(self.op) {
                            proof {
                                assert(m0 == seq![a[0]] + merge_seq(
                                    self.policy(),
                                    a.drop_first(),
                                    b.drop_first(),
                                ));
                                assert(m0.drop_first() =~= merge_seq(
                                    self.policy(),
                                    a.drop_first(),
                                    b.drop_first(),
                                ));
                            }
                            return Some(l);
                        } else {
                            proof {
                                lemma_views_skip(a, 1);
                                lemma_views_skip(b, 1);
                                lemma_ascending_skip::<T>(views_of(a), 1);
                                lemma_ascending_skip::<T>(views_of(b), 1);
                                assert(views_of(a.drop_first()) =~= views_of(a).drop_first());
                                assert(views_of(b.drop_first()) =~= views_of(b).drop_first());
                            }
                        }
                    }
                },
            }
        }
    }

    /// Discard every merged element whose view is at or before that of `t`,
    /// by skipping both streams past `t`.
    pub fn skip_past(&mut self, t: &T)
        requires
            old(self).wf(),
            old(self).srt(),
        ensures
            final(self).wf(),
            final(self).srt(),
            final(self).policy() == old(self).policy(),
            final(self).left_rem() == old(self).left_rem().skip(
                first_after::<T>(views_of(old(self).left_rem()), t.deep_view()),
            ),
            final(self).right_rem() == old(self).right_rem().skip(
                first_after::<T>(views_of(old(self).right_rem()), t.deep_view()),
            ),
    {
        proof {
            crate::ordered_iterators::lemma_set_iter_protocol(self.left);
            crate::ordered_iterators::lemma_set_iter_protocol(self.right);
            lemma_first_after::<T>(views_of(self.left_rem()), t.deep_view());
            lemma_first_after::<T>(views_of(self.right_rem()), t.deep_view());
            lemma_views_skip(
                self.left_rem(),
                first_after::<T>(views_of(self.left_rem()), t.deep_view()),
            );
            lemma_views_skip(
                self.right_rem(),
                first_after::<T>(views_of(self.right_rem()), t.deep_view()),
            );
            lemma_ascending_skip::<T>(
                views_of(self.left_rem()),
                first_after::<T>(views_of(self.left_rem()), t.deep_view()),
            );
            lemma_ascending_skip::<T>(
                views_of(self.right_rem()),
                first_after::<T>(views_of(self.right_rem()), t.deep_view()),
            );
        }
        self.left.skip_past(t);
        self.right.skip_past(t);
        proof {
            crate::ordered_iterators::lemma_set_iter_protocol(self.left);
            crate::ordered_iterators::lemma_set_iter_protocol(self.right);
        }
    }

    /// Discard every merged element whose view is before that of `t`, by
    /// skipping both streams until `t`.
    pub fn skip_until(&mut self, t: &T)
        requires
            old(self).wf(),
            old(self).srt(),
        ensures
            final(self).wf(),
            final(self).srt(),
            final(self).policy() == old(self).policy(),
            final(self).left_rem() == old(self).left_rem().skip(
                first_at_or_after::<T>(views_of(old(self).left_rem()), t.deep_view()),
            ),
            final(self).right_rem() == old(self).right_rem().skip(
                first_at_or_after::<T>(views_of(old(self).right_rem()), t.deep_view()),
            ),
    {
        proof {
            crate::ordered_iterators::lemma_set_iter_protocol(self.left);
            crate::ordered_iterators::lemma_set_iter_protocol(self.right);
            lemma_first_at_or_after::<T>(views_of(self.left_rem()), t.deep_view());
            lemma_first_at_or_after::<T>(views_of(self.right_rem()), t.deep_view());
            lemma_views_skip(
                self.left_rem(),
                first_at_or_after::<T>(views_of(self.left_rem()), t.deep_view()),
            );
            lemma_views_skip(
                self.right_rem(),
                first_at_or_after::<T>(views_of(self.right_rem()), t.deep_view()),
            );
            lemma_ascending_skip::<T>(
                views_of(self.left_rem()),
                first_at_or_after::<T>(views_of(self.left_rem()), t.deep_view()),
            );
            lemma_ascending_skip::<T>(
                views_of(self.right_rem()),
                first_at_or_after::<T>(views_of(self.right_rem()), t.deep_view()),
            );
        }
        self.left.skip_until(t);
        self.right.skip_until(t);
        proof {
            crate::ordered_iterators::lemma_set_iter_protocol(self.left);
            crate::ordered_iterators::lemma_set_iter_protocol(self.right);
        }
    }
}

impl<'a, T: TotalOrder + Duplicable> ToList<T> for MergeIter<'a, T> {
    closed spec fn rem_items(self) -> Seq<T> {
        self.out()
    }

    closed spec fn items_valid(self) -> bool {
        self.wf() && self.srt()
    }

    fn to_list(&mut self) -> (out: Vec<T>) {
        let mut out: Vec<T> = Vec::new();
        loop
            invariant
                self.wf(),
                self.srt(),
                out@ + self.out() == old(self).out(),
            decreases self.out().len(),
        {
            match self.next() {
                Some(x) => {
                    out.push(x.duplicate());
                    proof {
                        assert(out@ + self.out() =~= old(self).out());
                    }
                },
                None => {
                    proof {
                        assert(out@ =~= old(self).out());
                    }
                    return out;
                },
            }
        }
    }
}

impl<'a, T: TotalOrder + Duplicable> ToSet<T> for MergeIter<'a, T> {
    fn to_set(&mut self) -> (out: OrderedSet<T>) {
        let list = self.to_list();
        OrderedSet::from_sorted(list)
    }
}

/// No view is held by both sequences.
pub open spec fn share_no_view<T: TotalOrder>(a: Seq<T>, b: Seq<T>) -> bool {
    forall|v: T::V| !(#[trigger] views_of(a).contains(v) && #[trigger] views_of(b).contains(v))
}

/// Every view held by `sub` is held by `sup`.
pub open spec fn views_subset<T: TotalOrder>(sub: Seq<T>, sup: Seq<T>) -> bool {
    forall|v: T::V| #[trigger] views_of(sub).contains(v) ==> views_of(sup).contains(v)
}

/// A view held after dropping a prefix was held before.
proof fn lemma_skip_contains<T: TotalOrder>(s: Seq<T>, n: int, v: T::V)
    requires
        0 <= n <= s.len(),
        views_of(s.skip(n)).contains(v),
    ensures
        views_of(s).contains(v),
{
    lemma_views_skip(s, n);
    let vs = views_of(s);
    let i = choose|i: int| 0 <= i < vs.skip(n).len() && vs.skip(n)[i] == v;
    assert(vs[i + n] == v);
}

/// Whether two ascending streams share no view: the three-way comparison
/// walk, returning at the first equal pair, skipping ahead on the side that
/// is behind.
pub fn are_disjoint<'a, T: TotalOrder>(a: &mut SetIter<'a, T>, b: &mut SetIter<'a, T>) -> (r:
    bool)
    requires
        old(a).wf(),
        old(b).wf(),
        ascending::<T>(views_of(old(a).remaining())),
        ascending::<T>(views_of(old(b).remaining())),
    ensures
        final(a).wf(),
        final(b).wf(),
        r == share_no_view(old(a).remaining(), old(b).remaining()),
{
    proof {
        lemma_order_laws::<T>();
    }
    loop
        invariant
            a.wf(),
            b.wf(),
            ascending::<T>(views_of(a.remaining())),
            ascending::<T>(views_of(b.remaining())),
            share_no_view(a.remaining(), b.remaining()) == share_no_view(
                old(a).remaining(),
                old(b).remaining(),
            ),
        decreases a.remaining().len() + b.remaining().len(),
    {
        proof {
            lemma_order_laws::<T>();
        }
        let ghost arem = a.remaining();
        let ghost brem = b.remaining();
        let ap = a.peek();
        let bp = b.peek();
        match (ap, bp) {
            (Some(sa), Some(sb)) => {
                if sa.lt(sb) {
                    proof {
                        lemma_set_iter_pre(a);
                        lemma_first_at_or_after::<T>(views_of(arem), sb.deep_view());
                        assert(first_at_or_after::<T>(views_of(arem), sb.deep_view()) >= 1);
                    }
                    a.skip_until(sb);
                    proof {
                        lemma_set_iter_pre(a);
                        lemma_skip_keeps_disjointness::<T>(arem, brem, sb.deep_view());
                        let n = first_at_or_after::<T>(views_of(arem), sb.deep_view());
                        lemma_views_skip(arem, n);
                        lemma_ascending_skip::<T>(views_of(arem), n);
                        assert(views_of(arem.skip(n)) =~= views_of(arem).skip(n));
                    }
                } else if sb.lt(sa) {
                    proof {
                        lemma_set_iter_pre(b);
                        lemma_first_at_or_after::<T>(views_of(brem), sa.deep_view());
                        assert(first_at_or_after::<T>(views_of(brem), sa.deep_view()) >= 1);
                    }
                    b.skip_until(sa);
                    proof {
                        lemma_set_iter_pre(b);
                        lemma_skip_keeps_disjointness_right::<T>(arem, brem, sa.deep_view());
                        let n = first_at_or_after::<T>(views_of(brem), sa.deep_view());
                        lemma_views_skip(brem, n);
                        lemma_ascending_skip::<T>(views_of(brem), n);
                        assert(views_of(brem.skip(n)) =~= views_of(brem).skip(n));
                    }
                } else {
                    proof {
                        assert(views_of(arem)[0] == sa.deep_view());
                        assert(views_of(brem)[0] == sb.deep_view());
                        assert(views_of(arem).contains(sa.deep_view()));
                        assert(views_of(brem).contains(sa.deep_view()));
                    }
                    return false;
                }
            },
            _ => {
                proof {
                    assert forall|v: T::V| !(#[trigger] views_of(arem).contains(v)
                        && #[trigger] views_of(brem).contains(v)) by {}
                }
                return true;
            },
        }
    }
}

/// Dropping the left views below `x` changes nothing about sharing, as long
/// as every right view is at or above `x`.
proof fn lemma_skip_keeps_disjointness<T: TotalOrder>(a: Seq<T>, b: Seq<T>, x: T::V)
    requires
        ascending::<T>(views_of(a)),
        ascending::<T>(views_of(b)),
        b.len() > 0,
        views_of(b)[0] == x,
        0 <= first_at_or_after::<T>(views_of(a), x) <= a.len(),
    ensures
        share_no_view(a.skip(first_at_or_after::<T>(views_of(a), x)), b) == share_no_view(a, b),
{
    lemma_order_laws::<T>();
    let n = first_at_or_after::<T>(views_of(a), x);
    lemma_first_at_or_after::<T>(views_of(a), x);
    lemma_views_skip(a, n);
    if share_no_view(a.skip(n), b) {
        assert forall|v: T::V| !(#[trigger] views_of(a).contains(v) && #[trigger] views_of(
            b,
        ).contains(v)) by {
            if views_of(a).contains(v) && views_of(b).contains(v) {
                lemma_ascending_head_min::<T>(views_of(b), v);
                let i = choose|i: int|
                    0 <= i < views_of(a).len() && views_of(a)[i] == v;
                if i < n {
                    assert(T::below(views_of(a)[i], x));
                } else {
                    assert(views_of(a).skip(n)[i - n] == v);
                    assert(views_of(a.skip(n)).contains(v));
                }
            }
        }
    }
    if share_no_view(a, b) {
        assert forall|v: T::V| !(#[trigger] views_of(a.skip(n)).contains(v) && #[trigger] views_of(
            b,
        ).contains(v)) by {
            if views_of(a.skip(n)).contains(v) {
                lemma_skip_contains(a, n, v);
            }
        }
    }
}

/// The mirror image of [`lemma_skip_keeps_disjointness`].
proof fn lemma_skip_keeps_disjointness_right<T: TotalOrder>(a: Seq<T>, b: Seq<T>, x: T::V)
    requires
        ascending::<T>(views_of(a)),
        ascending::<T>(views_of(b)),
        a.len() > 0,
        views_of(a)[0] == x,
        0 <= first_at_or_after::<T>(views_of(b), x) <= b.len(),
    ensures
        share_no_view(a, b.skip(first_at_or_after::<T>(views_of(b), x))) == share_no_view(a, b),
{
    lemma_order_laws::<T>();
    let n = first_at_or_after::<T>(views_of(b), x);
    lemma_first_at_or_after::<T>(views_of(b), x);
    lemma_views_skip(b, n);
    if share_no_view(a, b.skip(n)) {
        assert forall|v: T::V| !(#[trigger] views_of(a).contains(v) && #[trigger] views_of(
            b,
        ).contains(v)) by {
            if views_of(a).contains(v) && views_of(b).contains(v) {
                lemma_ascending_head_min::<T>(views_of(a), v);
                let i = choose|i: int|
                    0 <= i < views_of(b).len() && views_of(b)[i] == v;
                if i < n {
                    assert(T::below(views_of(b)[i], x));
                } else {
                    assert(views_of(b).skip(n)[i - n] == v);
                    assert(views_of(b.skip(n)).contains(v));
                }
            }
        }
    }
    if share_no_view(a, b) {
        assert forall|v: T::V| !(#[trigger] views_of(a).contains(v) && #[trigger] views_of(
            b.skip(n),
        ).contains(v)) by {
            if views_of(b.skip(n)).contains(v) {
                lemma_skip_contains(b, n, v);
            }
        }
    }
}

/// Bring the protocol facts of a set iterator into scope.
proof fn lemma_set_iter_pre<'a, T: TotalOrder>(it: &SetIter<'a, T>)
    ensures
        it.rem_keys() == it.remaining(),
        it.valid() == it.wf(),
{
    crate::ordered_iterators::lemma_set_iter_protocol(*it);
}

/// Whether every view of the ascending stream `b` is also a view of the
/// ascending stream `a`: the subset walk, skipping `a` ahead to each key of
/// `b` in turn.
pub fn a_contains_b<'a, T: TotalOrder>(a: &mut SetIter<'a, T>, b: &mut SetIter<'a, T>) -> (r:
    bool)
    requires
        old(a).wf(),
        old(b).wf(),
        ascending::<T>(views_of(old(a).remaining())),
        ascending::<T>(views_of(old(b).remaining())),
    ensures
        final(a).wf(),
        final(b).wf(),
        r == views_subset(old(b).remaining(), old(a).remaining()),
{
    proof {
        lemma_order_laws::<T>();
    }
    let ghost a0 = old(a).remaining();
    let ghost b0 = old(b).remaining();
    loop
        invariant
            a.wf(),
            b.wf(),
            a0 == old(a).remaining(),
            b0 == old(b).remaining(),
            ascending::<T>(views_of(a.remaining())),
            ascending::<T>(views_of(b.remaining())),
            forall|v: T::V| #[trigger] views_of(a.remaining()).contains(v) ==> views_of(
                a0,
            ).contains(v),
            forall|v: T::V| #[trigger] views_of(b.remaining()).contains(v) ==> views_of(
                b0,
            ).contains(v),
            forall|v: T::V|
                views_of(a0).contains(v) && !views_of(a.remaining()).contains(v) ==> !(
                #[trigger] views_of(b.remaining()).contains(v)),
            forall|v: T::V|
                #[trigger] views_of(b0).contains(v) && !views_of(b.remaining()).contains(v)
                    ==> views_of(a0).contains(v),
        decreases b.remaining().len() + a.remaining().len(),
    {
        proof {
            lemma_order_laws::<T>();
        }
        let ghost arem = a.remaining();
        let ghost brem = b.remaining();
        let bp = b.peek();
        let sb = match bp {
            None => {
                proof {
                    assert forall|v: T::V| #[trigger] views_of(b0).contains(v) implies views_of(
                        a0,
                    ).contains(v) by {
                        assert(!views_of(brem).contains(v));
                    }
                }
                return true;
            },
            Some(sb) => sb,
        };
        proof {
            lemma_set_iter_pre(a);
            lemma_first_at_or_after::<T>(views_of(arem), sb.deep_view());
        }
        a.skip_until(sb);
        let ghost n = first_at_or_after::<T>(views_of(arem), sb.deep_view());
        proof {
            lemma_set_iter_pre(a);
            lemma_views_skip(arem, n);
            lemma_ascending_skip::<T>(views_of(arem), n);
            assert(views_of(arem.skip(n)) =~= views_of(arem).skip(n));
            assert(views_of(brem)[0] == sb.deep_view());
            assert(views_of(brem).contains(sb.deep_view()));
            // The views dropped from `a` are below `sb`, hence not held by
            // the rest of `b`, whose views are all at or above `sb`.
            assert forall|v: T::V|
                views_of(a0).contains(v) && !views_of(a.remaining()).contains(v) implies !(
            #[trigger] views_of(brem).contains(v)) by {
                if views_of(brem).contains(v) {
                    lemma_ascending_head_min::<T>(views_of(brem), v);
                    if views_of(arem).contains(v) {
                        let i = choose|i: int|
                            0 <= i < views_of(arem).len() && views_of(arem)[i] == v;
                        if i < n {
                            assert(T::below(views_of(arem)[i], sb.deep_view()));
                        } else {
                            assert(views_of(arem).skip(n)[i - n] == v);
                        }
                    }
                }
            }
            assert forall|v: T::V| #[trigger] views_of(a.remaining()).contains(v) implies views_of(
                a0,
            ).contains(v) by {
                lemma_skip_contains(arem, n, v);
            }
        }
        let ghost arem2 = a.remaining();
        let ap = a.peek();
        match ap {
            None => {
                proof {
                    assert(views_of(b0).contains(sb.deep_view()));
                    if views_of(a0).contains(sb.deep_view()) {
                        assert(!views_of(brem).contains(sb.deep_view()));
                    }
                }
                return false;
            },
            Some(sa) => {
                if sb.lt(sa) {
                    proof {
                        assert(views_of(b0).contains(sb.deep_view()));
                        assert(views_of(arem2)[0] == sa.deep_view());
                        assert(!views_of(arem2).contains(sb.deep_view())) by {
                            if views_of(arem2).contains(sb.deep_view()) {
                                lemma_ascending_head_min::<T>(views_of(arem2), sb.deep_view());
                            }
                        }
                        if views_of(a0).contains(sb.deep_view()) {
                            assert(!views_of(brem).contains(sb.deep_view()));
                        }
                    }
                    return false;
                } else {
                    // After `skip_until`, the head of `a` is at or after
                    // `sb`; not strictly after means the views are equal.
                    proof {
                        assert(views_of(arem2)[0] == sa.deep_view());
                        if n < views_of(arem).len() {
                            assert(views_of(arem).skip(n)[0] == views_of(arem)[n]);
                        }
                        assert(!T::below(sa.deep_view(), sb.deep_view()));
                        assert(!T::below(sb.deep_view(), sa.deep_view()));
                        assert(sa.deep_view() == sb.deep_view());
                        assert(views_of(arem2).contains(sa.deep_view()));
                    }
                    b.next();
                    proof {
                        assert(brem.drop_first() =~= brem.skip(1));
                        lemma_views_skip(brem, 1);
                        lemma_ascending_skip::<T>(views_of(brem), 1);
                        assert(views_of(brem.drop_first()) =~= views_of(brem).drop_first());
                        // The key just confirmed is held by the original
                        // left stream.
                        assert forall|v: T::V|
                            #[trigger] views_of(b0).contains(v) && !views_of(
                                b.remaining(),
                            ).contains(v) implies views_of(a0).contains(v) by {
                            if views_of(brem).contains(v) {
                                if v == sb.deep_view() {
                                    assert(views_of(a0).contains(v));
                                } else {
                                    lemma_contains_step(views_of(brem), v);
                                }
                            }
                        }
                        assert forall|v: T::V| #[trigger] views_of(b.remaining()).contains(
                            v,
                        ) implies views_of(b0).contains(v) by {
                            lemma_skip_contains(brem, 1, v);
                        }
                        assert forall|v: T::V|
                            views_of(a0).contains(v) && !views_of(a.remaining()).contains(
                                v,
                            ) implies !(#[trigger] views_of(b.remaining()).contains(v)) by {
                            if views_of(b.remaining()).contains(v) {
                                lemma_skip_contains(brem, 1, v);
                            }
                        }
                    }
                }
            },
        }
    }
}

/// The left-biased union of two pair sequences ordered by key views: both
/// sides' pairs in key order, the left pair alone where the key views are
/// equal.
pub open spec fn merge_pairs<K: TotalOrder, V>(a: Seq<(K, V)>, b: Seq<(K, V)>) -> Seq<(K, V)>
    decreases a.len() + b.len(),
{
    if a.len() == 0 {
        b
    } else if b.len() == 0 {
        a
    } else if K::below(a[0].0.deep_view(), b[0].0.deep_view()) {
        seq![a[0]] + merge_pairs(a.drop_first(), b)
    } else if K::below(b[0].0.deep_view(), a[0].0.deep_view()) {
        seq![b[0]] + merge_pairs(a, b.drop_first())
    } else {
        seq![a[0]] + merge_pairs(a.drop_first(), b.drop_first())
    }
}

/// A lazy left-biased union of two ascending pair streams: the merge engine
/// applied to whole maps, keeping the left value on a shared key.
pub struct MapMergeIter<'a, K: TotalOrder, V> {
    left: MapIter<'a, K, V>,
    right: MapIter<'a, K, V>,
}

impl<'a, K: TotalOrder, V> MapMergeIter<'a, K, V> {
    /// The keys the left stream has not yet consumed.
    pub closed spec fn left_keys(self) -> Seq<K> {
        self.left.remaining_keys()
    }

    /// The values the left stream has not yet consumed.
    pub closed spec fn left_vals(self) -> Seq<V> {
        self.left.remaining_vals()
    }

    /// The keys the right stream has not yet consumed.
    pub closed spec fn right_keys(self) -> Seq<K> {
        self.right.remaining_keys()
    }

    /// The values the right stream has not yet consumed.
    pub closed spec fn right_vals(self) -> Seq<V> {
        self.right.remaining_vals()
    }

    /// The pairs this merge will still produce.
    pub open spec fn out(self) -> Seq<(K, V)> {
        merge_pairs(
            pairs_of(self.left_keys(), self.left_vals()),
            pairs_of(self.right_keys(), self.right_vals()),
        )
    }

    /// Both cursors are within bounds.
    pub closed spec fn wf(self) -> bool {
        self.left.wf() && self.right.wf()
    }

    /// Both key streams are still ascending.
    pub open spec fn srt(self) -> bool {
        ascending::<K>(views_of(self.left_keys())) && ascending::<K>(views_of(self.right_keys()))
    }

    /// A merge of `left` against `right`.
    pub fn new(left: MapIter<'a, K, V>, right: MapIter<'a, K, V>) -> (it: Self)
        requires
            left.wf(),
            right.wf(),
        ensures
            it.wf(),
            it.left_keys() == left.remaining_keys(),
            it.left_vals() == left.remaining_vals(),
            it.right_keys() == right.remaining_keys(),
            it.right_vals() == right.remaining_vals(),
    {
        Self { left, right }
    }

    /// The next merged pair, advancing whichever streams supplied it;
    /// nothing once both are exhausted.
    pub fn next(&mut self) -> (r: Option<(&'a K, &'a V)>)
        requires
            old(self).wf(),
            old(self).srt(),
        ensures
            final(self).wf(),
            final(self).srt(),
            match r {
                Some(p) => {
                    &&& old(self).out().len() > 0
                    &&& (*p.0, *p.1) == old(self).out()[0]
                    &&& final(self).out() == old(self).out().drop_first()
                },
                None => {
                    &&& old(self).out().len() == 0
                    &&& final(self).out().len() == 0
                },
            },
    {
        proof {
            lemma_order_laws::<K>();
        }
        let ghost ak = self.left_keys();
        let ghost av = self.left_vals();
        let ghost bk = self.right_keys();
        let ghost bv = self.right_vals();
        let ghost pa = pairs_of(ak, av);
        let ghost pb = pairs_of(bk, bv);
        proof {
            crate::ordered_iterators::lemma_map_iter_lens(self.left);
            crate::ordered_iterators::lemma_map_iter_lens(self.right);
            if ak.len() > 0 {
                assert(pairs_of(ak.drop_first(), av.drop_first()) =~= pa.drop_first());
                lemma_views_skip(ak, 1);
                lemma_ascending_skip::<K>(views_of(ak), 1);
                assert(views_of(ak.drop_first()) =~= views_of(ak).drop_first());
            }
            if bk.len() > 0 {
                assert(pairs_of(bk.drop_first(), bv.drop_first()) =~= pb.drop_first());
                lemma_views_skip(bk, 1);
                lemma_ascending_skip::<K>(views_of(bk), 1);
                assert(views_of(bk.drop_first()) =~= views_of(bk).drop_first());
            }
        }
        let lp = self.left.peek();
        let rp = self.right.peek();
        match (lp, rp) {
            (None, None) => None,
            (Some(l), None) => {
                self.left.next();
                proof {
                    assert(pa[0] == (ak[0], av[0]));
                    assert(pa.drop_first() =~= merge_pairs(
                        pairs_of(self.left_keys(), self.left_vals()),
                        pairs_of(self.right_keys(), self.right_vals()),
                    ));
                }
                Some(l)
            },
            (None, Some(r0)) => {
                self.right.next();
                proof {
                    assert(pb[0] == (bk[0], bv[0]));
                    assert(pb.drop_first() =~= merge_pairs(
                        pairs_of(self.left_keys(), self.left_vals()),
                        pairs_of(self.right_keys(), self.right_vals()),
                    ));
                }
                Some(r0)
            },
            (Some(l), Some(r0)) => {
                proof {
                    assert(pa[0] == (ak[0], av[0]));
                    assert(pb[0] == (bk[0], bv[0]));
                }
                if l.0.lt(r0.0) {
                    self.left.next();
                    Some(l)
                } else if r0.0.lt(l.0) {
                    self.right.next();
                    Some(r0)
                } else {
                    self.left.next();
                    self.right.next();
                    Some(l)
                }
            },
        }
    }

    /// Discard every merged pair whose key view is at or before that of
    /// `t`, by skipping both streams past `t`.
    pub fn skip_past(&mut self, t: &K)
        requires
            old(self).wf(),
            old(self).srt(),
        ensures
            final(self).wf(),
            final(self).srt(),
            final(self).left_keys() == old(self).left_keys().skip(
                first_after::<K>(views_of(old(self).left_keys()), t.deep_view()),
            ),
            final(self).left_vals() == old(self).left_vals().skip(
                first_after::<K>(views_of(old(self).left_keys()), t.deep_view()),
            ),
            final(self).right_keys() == old(self).right_keys().skip(
                first_after::<K>(views_of(old(self).right_keys()), t.deep_view()),
            ),
            final(self).right_vals() == old(self).right_vals().skip(
                first_after::<K>(views_of(old(self).right_keys()), t.deep_view()),
            ),
    {
        proof {
            crate::ordered_iterators::lemma_map_iter_protocol(self.left);
            crate::ordered_iterators::lemma_map_iter_protocol(self.right);
            lemma_first_after::<K>(views_of(self.left_keys()), t.deep_view());
            lemma_first_after::<K>(views_of(self.right_keys()), t.deep_view());
            lemma_map_merge_sides_skip::<K, V>(
                self.left_keys(),
                first_after::<K>(views_of(self.left_keys()), t.deep_view()),
            );
            lemma_map_merge_sides_skip::<K, V>(
                self.right_keys(),
                first_after::<K>(views_of(self.right_keys()), t.deep_view()),
            );
        }
        self.left.skip_past(t);
        self.right.skip_past(t);
        proof {
            crate::ordered_iterators::lemma_map_iter_protocol(self.left);
            crate::ordered_iterators::lemma_map_iter_protocol(self.right);
        }
    }

    /// Discard every merged pair whose key view is before that of `t`, by
    /// skipping both streams until `t`.
    pub fn skip_until(&mut self, t: &K)
        requires
            old(self).wf(),
            old(self).srt(),
        ensures
            final(self).wf(),
            final(self).srt(),
            final(self).left_keys() == old(self).left_keys().skip(
                first_at_or_after::<K>(views_of(old(self).left_keys()), t.deep_view()),
            ),
            final(self).left_vals() == old(self).left_vals().skip(
                first_at_or_after::<K>(views_of(old(self).left_keys()), t.deep_view()),
            ),
            final(self).right_keys() == old(self).right_keys().skip(
                first_at_or_after::<K>(views_of(old(self).right_keys()), t.deep_view()),
            ),
            final(self).right_vals() == old(self).right_vals().skip(
                first_at_or_after::<K>(views_of(old(self).right_keys()), t.deep_view()),
            ),
    {
        proof {
            crate::ordered_iterators::lemma_map_iter_protocol(self.left);
            crate::ordered_iterators::lemma_map_iter_protocol(self.right);
            lemma_first_at_or_after::<K>(views_of(self.left_keys()), t.deep_view());
            lemma_first_at_or_after::<K>(views_of(self.right_keys()), t.deep_view());
            lemma_map_merge_sides_skip::<K, V>(
                self.left_keys(),
                first_at_or_after::<K>(views_of(self.left_keys()), t.deep_view()),
            );
            lemma_map_merge_sides_skip::<K, V>(
                self.right_keys(),
                first_at_or_after::<K>(views_of(self.right_keys()), t.deep_view()),
            );
        }
        self.left.skip_until(t);
        self.right.skip_until(t);
        proof {
            crate::ordered_iterators::lemma_map_iter_protocol(self.left);
            crate::ordered_iterators::lemma_map_iter_protocol(self.right);
        }
    }
}

/// For a merge iterator the materialisable items are its output.
pub broadcast proof fn lemma_merge_iter_items<'a, T: TotalOrder + Duplicable>(
    it: MergeIter<'a, T>,
)
    ensures
        #[trigger] it.rem_items() == it.out(),
        it.items_valid() == (it.wf() && it.srt()),
{
}


/// A skipped ascending key stream is still ascending.
proof fn lemma_map_merge_sides_skip<K: TotalOrder, V>(ks: Seq<K>, n: int)
    requires
        ascending::<K>(views_of(ks)),
        0 <= n <= ks.len(),
    ensures
        ascending::<K>(views_of(ks.skip(n))),
{
    lemma_views_skip(ks, n);
    lemma_ascending_skip::<K>(views_of(ks), n);
    assert(views_of(ks.skip(n)) =~= views_of(ks).skip(n));
}

} // verus!
