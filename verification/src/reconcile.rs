use vstd::prelude::*;

use crate::icon::{icon_eq, Icon};
use crate::location::{location_eq, Location};

verus! {

/// A type whose values can be compared and copied by their mathematical
/// views: the reconciler works on any such comparable type.
pub trait ViewEq: View + Sized {
    /// Equal exactly when the views are equal.
    fn v_eq(&self, other: &Self) -> (r: bool)
        ensures
            r == (self@ == other@),
    ;

    /// A copy with the same view.
    fn v_dup(&self) -> (r: Self)
        ensures
            r@ == self@,
    ;
}

impl ViewEq for Icon {
    fn v_eq(&self, other: &Self) -> (r: bool) {
        icon_eq(self, other)
    }

    fn v_dup(&self) -> (r: Self) {
        self.dup()
    }
}

impl ViewEq for Location {
    fn v_eq(&self, other: &Self) -> (r: bool) {
        location_eq(self, other)
    }

    fn v_dup(&self) -> (r: Self) {
        self.dup()
    }
}

/// The views of the elements of `s`.
pub open spec fn views<T: View>(s: Seq<T>) -> Seq<<T as View>::V> {
    s.map_values(|t: T| t@)
}

/// The elements of `a` that `b` lacks, in the order of `a`.
pub open spec fn only_of<V>(a: Seq<V>, b: Seq<V>) -> Seq<V> {
    a.filter(|v: V| !b.contains(v))
}

/// The elements of `a` that `b` also has, in the order of `a`.
pub open spec fn common_of<V>(a: Seq<V>, b: Seq<V>) -> Seq<V> {
    a.filter(|v: V| b.contains(v))
}

/// Whether some element of `v` has the view of `x`.
fn contains_view<T: ViewEq>(v: &Vec<T>, x: &T) -> (r: bool)
    ensures
        r == views(v@).contains(x@),
{
    let mut i: usize = 0;
    while i < v.len()
        invariant
            i <= v@.len(),
            forall|j: int| 0 <= j < i ==> views(v@)[j] != x@,
        decreases v@.len() - i,
    {
        if v[i].v_eq(x) {
            proof {
                assert(views(v@)[i as int] == x@);
            }
            return true;
        }
        proof {
            assert(views(v@)[i as int] == v@[i as int]@);
        }
        i += 1;
    }
    proof {
        if views(v@).contains(x@) {
            let w = choose|w: int| 0 <= w < views(v@).len() && views(v@)[w] == x@;
            assert(false);
        }
    }
    false
}

/// What reconciling two comparable sets yields: the elements unique to each
/// side, and the common test surface.
pub struct Reconciled<T> {
    pub only_left: Vec<T>,
    pub only_right: Vec<T>,
    pub common: Vec<T>,
}

/// Reconciles the two sides' sets: `only_left` holds what only the left
/// side has, `only_right` what only the right side has, and `common` the
/// shared elements; each keeps its source's order, so sorted inputs give
/// sorted, deterministic reports.
pub fn reconcile<T: ViewEq>(left: &Vec<T>, right: &Vec<T>) -> (r: Reconciled<T>)
    ensures
        views(r.only_left@) == only_of(views(left@), views(right@)),
        views(r.only_right@) == only_of(views(right@), views(left@)),
        views(r.common@) == common_of(views(left@), views(right@)),
{
    let only_left = keep_if(left, right, false);
    let only_right = keep_if(right, left, false);
    let common = keep_if(left, right, true);
    Reconciled { only_left, only_right, common }
}

/// Keeps the elements of `a` whose presence in `b` matches `want`.
fn keep_if<T: ViewEq>(a: &Vec<T>, b: &Vec<T>, want: bool) -> (r: Vec<T>)
    ensures
        want ==> views(r@) == common_of(views(a@), views(b@)),
        !want ==> views(r@) == only_of(views(a@), views(b@)),
{
    let ghost va = views(a@);
    let ghost vb = views(b@);
    let ghost pred_common = |v: <T as View>::V| vb.contains(v);
    let ghost pred_only = |v: <T as View>::V| !vb.contains(v);
    let mut out: Vec<T> = Vec::new();
    let mut i: usize = 0;
    proof {
        assert(va.take(0) =~= Seq::<<T as View>::V>::empty());
        assert(views(out@) =~= Seq::<<T as View>::V>::empty());
        assert(Seq::<<T as View>::V>::empty().filter(pred_common) =~= Seq::<
            <T as View>::V,
        >::empty());
        assert(Seq::<<T as View>::V>::empty().filter(pred_only) =~= Seq::<
            <T as View>::V,
        >::empty());
    }
    while i < a.len()
        invariant
            va == views(a@),
            vb == views(b@),
            pred_common == (|v: <T as View>::V| vb.contains(v)),
            pred_only == (|v: <T as View>::V| !vb.contains(v)),
            i <= va.len() == a@.len(),
            want ==> views(out@) == va.take(i as int).filter(pred_common),
            !want ==> views(out@) == va.take(i as int).filter(pred_only),
        decreases a@.len() - i,
    {
        let ghost prev = views(out@);
        let found = contains_view(b, &a[i]);
        proof {
            assert(va[i as int] == a@[i as int]@);
        }
        if found == want {
            let copy = a[i].v_dup();
            out.push(copy);
            proof {
                assert(views(out@) =~= prev.push(va[i as int]));
            }
        }
        proof {
            assert(va.take(i + 1) =~= va.take(i as int).push(va[i as int]));
            va.take(i as int).lemma_filter_push(va[i as int], pred_common);
            va.take(i as int).lemma_filter_push(va[i as int], pred_only);
        }
        i += 1;
    }
    proof {
        assert(va.take(va.len() as int) =~= va);
    }
    out
}

/// A filtered sequence holds exactly the original's elements that satisfy
/// the predicate.
pub proof fn lemma_filter_membership<V>(s: Seq<V>, pred: spec_fn(V) -> bool, x: V)
    ensures
        s.filter(pred).contains(x) <==> s.contains(x) && pred(x),
{
    if s.filter(pred).contains(x) {
        let w = choose|w: int| 0 <= w < s.filter(pred).len() && s.filter(pred)[w] == x;
        s.lemma_filter_pred(pred, w);
        s.lemma_filter_contains_rev(pred, x);
    }
    if s.contains(x) && pred(x) {
        let w = choose|w: int| 0 <= w < s.len() && s[w] == x;
        s.lemma_filter_contains(pred, w);
    }
}

/// Reconciliation is a true partition: the three parts together hold
/// exactly the union of both sides, the two `only` parts never overlap,
/// and neither overlaps the common part.
pub proof fn lemma_reconcile_partition<V>(l: Seq<V>, r: Seq<V>)
    ensures
        only_of(l, r).to_set().union(only_of(r, l).to_set()).union(common_of(l, r).to_set())
            == l.to_set().union(r.to_set()),
        only_of(l, r).to_set().disjoint(only_of(r, l).to_set()),
        only_of(l, r).to_set().disjoint(common_of(l, r).to_set()),
        only_of(r, l).to_set().disjoint(common_of(l, r).to_set()),
{
    let pol = |v: V| !r.contains(v);
    let por = |v: V| !l.contains(v);
    let pc = |v: V| r.contains(v);
    assert forall|x: V|
        only_of(l, r).to_set().union(only_of(r, l).to_set()).union(
            common_of(l, r).to_set(),
        ).contains(x) <==> l.to_set().union(r.to_set()).contains(x) by {
        lemma_filter_membership(l, pol, x);
        lemma_filter_membership(r, por, x);
        lemma_filter_membership(l, pc, x);
    }
    assert(only_of(l, r).to_set().union(only_of(r, l).to_set()).union(common_of(l, r).to_set())
        =~= l.to_set().union(r.to_set()));
    assert forall|x: V| !(only_of(l, r).to_set().contains(x) && only_of(r, l).to_set().contains(
        x,
    )) by {
        lemma_filter_membership(l, pol, x);
        lemma_filter_membership(r, por, x);
    }
    assert forall|x: V| !(only_of(l, r).to_set().contains(x) && common_of(l, r).to_set().contains(
        x,
    )) by {
        lemma_filter_membership(l, pol, x);
        lemma_filter_membership(l, pc, x);
    }
    assert forall|x: V| !(only_of(r, l).to_set().contains(x) && common_of(l, r).to_set().contains(
        x,
    )) by {
        lemma_filter_membership(r, por, x);
        lemma_filter_membership(l, pc, x);
    }
}

} // verus!
