use vstd::prelude::*;

verus! {

/// One point in the variation design space: a raw design-space coordinate
/// per axis, keyed by the axis tag, in the axis order of the font. Two
/// locations are equal exactly when every axis maps to the same coordinate.
#[derive(Debug, Clone)]
pub struct Location {
    pub coords: Vec<(u32, i32)>,
}

impl View for Location {
    type V = Seq<(u32, i32)>;

    open spec fn view(&self) -> Seq<(u32, i32)> {
        self.coords@
    }
}

/// Compares two locations: equal exactly when they list the same axes with
/// the same coordinates in the same order.
pub fn location_eq(a: &Location, b: &Location) -> (r: bool)
    ensures
        r == (a@ == b@),
{
    if a.coords.len() != b.coords.len() {
        return false;
    }
    let mut i: usize = 0;
    while i < a.coords.len()
        invariant
            a@.len() == b@.len(),
            i <= a@.len(),
            forall|j: int| 0 <= j < i ==> a@[j] == b@[j],
        decreases a@.len() - i,
    {
        let (ta, va) = a.coords[i];
        let (tb, vb) = b.coords[i];
        if ta != tb || va != vb {
            return false;
        }
        i += 1;
    }
    proof {
        assert(a@ =~= b@);
    }
    true
}

impl Location {
    /// A copy of this location with the same coordinates.
    pub fn dup(&self) -> (r: Location)
        ensures
            r@ == self@,
    {
        let mut coords: Vec<(u32, i32)> = Vec::new();
        let mut i: usize = 0;
        while i < self.coords.len()
            invariant
                i <= self.coords@.len(),
                coords@ == self.coords@.take(i as int),
            decreases self.coords@.len() - i,
        {
            coords.push(self.coords[i]);
            proof {
                assert(coords@ =~= self.coords@.take(i + 1));
            }
            i += 1;
        }
        proof {
            assert(coords@ =~= self.coords@);
        }
        Location { coords }
    }
}


use crate::axis::{is_stop, Axis};
use crate::reconcile::views;

/// `list` is the stop list of `axis`, paired with its tag: every entry
/// carries the axis tag and a policy stop, the coordinates are strictly
/// ascending, and every policy stop occurs.
pub open spec fn stop_list_of(axis: Axis, list: Seq<(u32, i32)>) -> bool {
    &&& forall|k: int| 0 <= k < list.len() ==> (#[trigger] list[k]).0 == axis.tag
    &&& forall|k: int| 0 <= k < list.len() ==> is_stop(axis, (#[trigger] list[k]).1 as int)
    &&& forall|k1: int, k2: int| 0 <= k1 < k2 < list.len() ==> list[k1].1 < list[k2].1
    &&& forall|v: i32|
        is_stop(axis, v as int) ==> exists|k: int| 0 <= k < list.len() && list[k].1 == v
}

/// One stop list per axis, in axis order.
pub open spec fn stop_lists_of(axes: Seq<Axis>, lists: Seq<Seq<(u32, i32)>>) -> bool {
    &&& lists.len() == axes.len()
    &&& forall|a: int| 0 <= a < axes.len() ==> stop_list_of(axes[a], #[trigger] lists[a])
}

/// Every partial location extended by every stop of one more axis, in
/// order: entry `p * stops.len() + q` extends partial `p` with stop `q`.
pub open spec fn extend_grid(partials: Seq<Seq<(u32, i32)>>, stops: Seq<(u32, i32)>) -> Seq<
    Seq<(u32, i32)>,
> {
    Seq::new(
        partials.len() * stops.len(),
        |w: int| partials[w / stops.len() as int].push(stops[w % stops.len() as int]),
    )
}

/// The full cartesian grid over the given stop lists: one row per way of
/// picking one stop from every list, in lexicographic construction order.
pub open spec fn grid(lists: Seq<Seq<(u32, i32)>>) -> Seq<Seq<(u32, i32)>>
    decreases lists.len(),
{
    if lists.len() == 0 {
        seq![Seq::<(u32, i32)>::empty()]
    } else {
        extend_grid(grid(lists.drop_last()), lists.last())
    }
}

/// The product of the stop-list sizes.
pub open spec fn grid_size(lists: Seq<Seq<(u32, i32)>>) -> nat
    decreases lists.len(),
{
    if lists.len() == 0 {
        1
    } else {
        grid_size(lists.drop_last()) * lists.last().len()
    }
}

/// The grid has exactly as many rows as the product of the per-axis
/// stop-list sizes.
pub proof fn lemma_grid_len(lists: Seq<Seq<(u32, i32)>>)
    ensures
        grid(lists).len() == grid_size(lists),
    decreases lists.len(),
{
    if lists.len() > 0 {
        lemma_grid_len(lists.drop_last());
    }
}

/// Every grid row picks one stop per list: it is as long as the list of
/// lists, and its entry for each axis comes from that axis's stop list.
pub proof fn lemma_grid_rows(lists: Seq<Seq<(u32, i32)>>)
    ensures
        forall|w: int|
            0 <= w < grid(lists).len() ==> (#[trigger] grid(lists)[w]).len() == lists.len(),
        forall|w: int, a: int|
            0 <= w < grid(lists).len() && 0 <= a < lists.len() ==> lists[a].contains(
                #[trigger] grid(lists)[w][a],
            ),
    decreases lists.len(),
{
    if lists.len() == 0 {
    } else {
        let dl = lists.drop_last();
        let last = lists.last();
        let prev = grid(dl);
        let m = last.len() as int;
        lemma_grid_rows(dl);
        assert forall|w: int| 0 <= w < grid(lists).len() implies (#[trigger] grid(lists)[w]).len()
            == lists.len() && (forall|a: int|
            0 <= a < lists.len() ==> lists[a].contains(#[trigger] grid(lists)[w][a])) by {
            assert(grid(lists).len() == prev.len() * m);
            assert(m > 0) by (nonlinear_arith)
                requires
                    prev.len() * m > 0,
            ;
            let p = w / m;
            let q = w % m;
            vstd::arithmetic::div_mod::lemma_fundamental_div_mod(w, m);
            assert(0 <= q < m) by {
                vstd::arithmetic::div_mod::lemma_mod_bound(w, m);
            }
            assert(0 <= p < prev.len()) by (nonlinear_arith)
                requires
                    w == m * p + q,
                    0 <= q < m,
                    0 <= w < prev.len() * m,
            ;
            assert(grid(lists)[w] == prev[p].push(last[q]));
            assert(prev[p].len() == dl.len());
            assert forall|a: int| 0 <= a < lists.len() implies lists[a].contains(
                #[trigger] grid(lists)[w][a],
            ) by {
                if a < dl.len() {
                    assert(grid(lists)[w][a] == prev[p][a]);
                    assert(dl[a].contains(prev[p][a]));
                    assert(lists[a] == dl[a]);
                } else {
                    assert(grid(lists)[w][a] == last[q]);
                    assert(lists[a] == last);
                }
            }
        }
    }
}

/// Grid rows are pairwise distinct whenever every stop list holds pairwise
/// distinct coordinates: the resulting constellation has no duplicate
/// locations, so its size is exactly the product of the stop-list sizes.
pub proof fn lemma_grid_distinct(lists: Seq<Seq<(u32, i32)>>)
    requires
        forall|a: int, k1: int, k2: int|
            #![trigger lists[a][k1], lists[a][k2]]
            0 <= a < lists.len() && 0 <= k1 < k2 < lists[a].len() ==> lists[a][k1].1
                != lists[a][k2].1,
    ensures
        forall|w1: int, w2: int|
            0 <= w1 < w2 < grid(lists).len() ==> #[trigger] grid(lists)[w1] != #[trigger] grid(
                lists,
            )[w2],
    decreases lists.len(),
{
    if lists.len() == 0 {
    } else {
        let dl = lists.drop_last();
        let last = lists.last();
        let prev = grid(dl);
        let m = last.len() as int;
        assert(forall|a: int, k1: int, k2: int|
            #![trigger dl[a][k1], dl[a][k2]]
            0 <= a < dl.len() && 0 <= k1 < k2 < dl[a].len() ==> dl[a][k1].1 != dl[a][k2].1) by {
            assert(forall|a: int| 0 <= a < dl.len() ==> #[trigger] dl[a] == lists[a]);
        }
        lemma_grid_distinct(dl);
        lemma_grid_rows(dl);
        assert forall|w1: int, w2: int| 0 <= w1 < w2 < grid(lists).len() implies #[trigger] grid(
            lists,
        )[w1] != #[trigger] grid(lists)[w2] by {
            assert(grid(lists).len() == prev.len() * m);
            assert(m > 0) by (nonlinear_arith)
                requires
                    prev.len() * m > 0,
            ;
            let p1 = w1 / m;
            let q1 = w1 % m;
            let p2 = w2 / m;
            let q2 = w2 % m;
            vstd::arithmetic::div_mod::lemma_fundamental_div_mod(w1, m);
            vstd::arithmetic::div_mod::lemma_fundamental_div_mod(w2, m);
            vstd::arithmetic::div_mod::lemma_mod_bound(w1, m);
            vstd::arithmetic::div_mod::lemma_mod_bound(w2, m);
            assert(0 <= p1 < prev.len() && 0 <= p2 < prev.len()) by (nonlinear_arith)
                requires
                    w1 == m * p1 + q1,
                    w2 == m * p2 + q2,
                    0 <= q1 < m,
                    0 <= q2 < m,
                    0 <= w1 < prev.len() * m,
                    0 <= w2 < prev.len() * m,
            ;
            let r1 = prev[p1].push(last[q1]);
            let r2 = prev[p2].push(last[q2]);
            assert(grid(lists)[w1] == r1 && grid(lists)[w2] == r2);
            if r1 == r2 {
                assert(r1.drop_last() =~= prev[p1]);
                assert(r2.drop_last() =~= prev[p2]);
                assert(prev[p1] == prev[p2]);
                assert(r1.last() == last[q1] && r2.last() == last[q2]);
                assert(last[q1] == last[q2]);
                if p1 != p2 {
                    if p1 < p2 {
                        assert(prev[p1] != prev[p2]);
                    } else {
                        assert(prev[p2] != prev[p1]);
                    }
                    assert(false);
                }
                if q1 != q2 {
                    if q1 < q2 {
                        assert(last[q1].1 != last[q2].1);
                    } else {
                        assert(last[q2].1 != last[q1].1);
                    }
                    assert(false);
                }
                assert(w1 == w2) by (nonlinear_arith)
                    requires
                        w1 == m * p1 + q1,
                        w2 == m * p2 + q2,
                        p1 == p2,
                        q1 == q2,
                ;
                assert(false);
            }
        }
    }
}

/// Every way of picking one stop per list appears in the grid: with the
/// row and distinctness lemmas, the grid is exactly the cartesian set of
/// selections.
pub proof fn lemma_grid_complete(lists: Seq<Seq<(u32, i32)>>, sel: Seq<(u32, i32)>)
    requires
        sel.len() == lists.len(),
        forall|a: int| 0 <= a < lists.len() ==> lists[a].contains(#[trigger] sel[a]),
    ensures
        grid(lists).contains(sel),
    decreases lists.len(),
{
    if lists.len() == 0 {
        assert(sel =~= Seq::<(u32, i32)>::empty());
        assert(grid(lists)[0] == sel);
    } else {
        let dl = lists.drop_last();
        let last = lists.last();
        let m = last.len() as int;
        let prefix = sel.drop_last();
        assert forall|a: int| 0 <= a < dl.len() implies dl[a].contains(#[trigger] prefix[a]) by {
            assert(dl[a] == lists[a]);
            assert(prefix[a] == sel[a]);
        }
        lemma_grid_complete(dl, prefix);
        let p = choose|p: int| 0 <= p < grid(dl).len() && grid(dl)[p] == prefix;
        assert(last.contains(sel.last()));
        let q = choose|q: int| 0 <= q < last.len() && last[q] == sel.last();
        let w = p * m + q;
        assert(0 <= w < grid(dl).len() * m) by (nonlinear_arith)
            requires
                0 <= p < grid(dl).len(),
                0 <= q < m,
                w == p * m + q,
        ;
        vstd::arithmetic::div_mod::lemma_fundamental_div_mod_converse(w, m, p, q);
        assert(grid(lists)[w] == prefix.push(sel.last()));
        assert(prefix.push(sel.last()) =~= sel);
        assert(grid(lists).contains(sel));
    }
}

/// An axis determines its stop list: any two sequences that both satisfy
/// `stop_list_of` for one axis are the same sequence, so the constellation
/// contract pins one grid.
pub proof fn lemma_stop_list_unique(axis: Axis, l1: Seq<(u32, i32)>, l2: Seq<(u32, i32)>)
    requires
        stop_list_of(axis, l1),
        stop_list_of(axis, l2),
    ensures
        l1 == l2,
    decreases l1.len(),
{
    if l1.len() == 0 {
        if l2.len() > 0 {
            assert(is_stop(axis, l2[0].1 as int));
            assert(exists|k: int| 0 <= k < l1.len() && l1[k].1 == l2[0].1);
            assert(false);
        }
        assert(l1 =~= l2);
    } else if l2.len() == 0 {
        assert(is_stop(axis, l1[0].1 as int));
        assert(exists|k: int| 0 <= k < l2.len() && l2[k].1 == l1[0].1);
        assert(false);
    } else {
        // the heads carry the least stop of the same value set, so they agree
        let i = choose|i: int| 0 <= i < l2.len() && l2[i].1 == l1[0].1;
        let j = choose|j: int| 0 <= j < l1.len() && l1[j].1 == l2[0].1;
        assert(l2[0].1 <= l2[i].1);
        assert(l1[0].1 <= l1[j].1);
        assert(l1[0].1 == l2[0].1);
        assert(l1[0] == l2[0]);
        // the tails are stop lists of the values above the shared head
        let t1 = l1.drop_first();
        let t2 = l2.drop_first();
        lemma_tail_unique(axis, l1, l2);
        assert(t1 == t2);
        assert(l1 =~= seq![l1[0]] + t1);
        assert(l2 =~= seq![l2[0]] + t2);
    }
}

/// Strictly sorted stop lists with equal heads have equal tails.
proof fn lemma_tail_unique(axis: Axis, l1: Seq<(u32, i32)>, l2: Seq<(u32, i32)>)
    requires
        stop_list_of(axis, l1),
        stop_list_of(axis, l2),
        l1.len() > 0,
        l2.len() > 0,
        l1[0] == l2[0],
    ensures
        l1.drop_first() == l2.drop_first(),
    decreases l1.len(),
{
    let t1 = l1.drop_first();
    let t2 = l2.drop_first();
    assert(forall|k: int| 0 <= k < t1.len() ==> #[trigger] t1[k] == l1[k + 1]);
    assert(forall|k: int| 0 <= k < t2.len() ==> #[trigger] t2[k] == l2[k + 1]);
    assert(stop_list_of_above(axis, l1[0].1, t1)) by {
        lemma_drop_head(axis, l1);
    }
    assert(stop_list_of_above(axis, l2[0].1, t2)) by {
        lemma_drop_head(axis, l2);
    }
    lemma_above_unique(axis, l1[0].1, t1, t2);
}

/// `list` holds, in strictly ascending order, exactly the stops above `lo`.
spec fn stop_list_of_above(axis: Axis, lo: i32, list: Seq<(u32, i32)>) -> bool {
    &&& forall|k: int| 0 <= k < list.len() ==> (#[trigger] list[k]).0 == axis.tag
    &&& forall|k: int|
        0 <= k < list.len() ==> is_stop(axis, (#[trigger] list[k]).1 as int) && list[k].1 > lo
    &&& forall|k1: int, k2: int| 0 <= k1 < k2 < list.len() ==> list[k1].1 < list[k2].1
    &&& forall|v: i32|
        is_stop(axis, v as int) && v > lo ==> exists|k: int| 0 <= k < list.len() && list[k].1 == v
}

/// Dropping a stop list's head leaves the stops above it.
proof fn lemma_drop_head(axis: Axis, l: Seq<(u32, i32)>)
    requires
        stop_list_of(axis, l),
        l.len() > 0,
    ensures
        stop_list_of_above(axis, l[0].1, l.drop_first()),
{
    let t = l.drop_first();
    assert(forall|k: int| 0 <= k < t.len() ==> #[trigger] t[k] == l[k + 1]);
    assert forall|v: i32| is_stop(axis, v as int) && v > l[0].1 implies exists|k: int|
        0 <= k < t.len() && t[k].1 == v by {
        let k = choose|k: int| 0 <= k < l.len() && l[k].1 == v;
        assert(k > 0);
        assert(t[k - 1].1 == v);
    }
}

/// Two strictly sorted lists of exactly the stops above `lo` are equal.
proof fn lemma_above_unique(axis: Axis, lo: i32, l1: Seq<(u32, i32)>, l2: Seq<(u32, i32)>)
    requires
        stop_list_of_above(axis, lo, l1),
        stop_list_of_above(axis, lo, l2),
    ensures
        l1 == l2,
    decreases l1.len(),
{
    if l1.len() == 0 {
        if l2.len() > 0 {
            assert(is_stop(axis, l2[0].1 as int) && l2[0].1 > lo);
            assert(exists|k: int| 0 <= k < l1.len() && l1[k].1 == l2[0].1);
            assert(false);
        }
        assert(l1 =~= l2);
    } else if l2.len() == 0 {
        assert(is_stop(axis, l1[0].1 as int) && l1[0].1 > lo);
        assert(exists|k: int| 0 <= k < l2.len() && l2[k].1 == l1[0].1);
        assert(false);
    } else {
        let i = choose|i: int| 0 <= i < l2.len() && l2[i].1 == l1[0].1;
        let j = choose|j: int| 0 <= j < l1.len() && l1[j].1 == l2[0].1;
        assert(l2[0].1 <= l2[i].1);
        assert(l1[0].1 <= l1[j].1);
        assert(l1[0] == l2[0]);
        let t1 = l1.drop_first();
        let t2 = l2.drop_first();
        assert(forall|k: int| 0 <= k < t1.len() ==> #[trigger] t1[k] == l1[k + 1]);
        assert(forall|k: int| 0 <= k < t2.len() ==> #[trigger] t2[k] == l2[k + 1]);
        assert(stop_list_of_above(axis, l1[0].1, t1)) by {
            lemma_drop_head_above(axis, lo, l1);
        }
        assert(stop_list_of_above(axis, l2[0].1, t2)) by {
            lemma_drop_head_above(axis, lo, l2);
        }
        lemma_above_unique(axis, l1[0].1, t1, t2);
        assert(l1 =~= seq![l1[0]] + t1);
        assert(l2 =~= seq![l2[0]] + t2);
    }
}

/// Dropping the head of a list of the stops above `lo` leaves the stops
/// above that head.
proof fn lemma_drop_head_above(axis: Axis, lo: i32, l: Seq<(u32, i32)>)
    requires
        stop_list_of_above(axis, lo, l),
        l.len() > 0,
    ensures
        stop_list_of_above(axis, l[0].1, l.drop_first()),
{
    let t = l.drop_first();
    assert(forall|k: int| 0 <= k < t.len() ==> #[trigger] t[k] == l[k + 1]);
    assert forall|v: i32| is_stop(axis, v as int) && v > l[0].1 implies exists|k: int|
        0 <= k < t.len() && t[k].1 == v by {
        assert(v > lo);
        let k = choose|k: int| 0 <= k < l.len() && l[k].1 == v;
        assert(k > 0);
        assert(t[k - 1].1 == v);
    }
}

/// Pairs every stop of the axis with its tag.
fn axis_stop_pairs(axis: &Axis) -> (r: Vec<(u32, i32)>)
    requires
        axis.wf(),
    ensures
        stop_list_of(*axis, r@),
        r@.len() >= 1,
{
    let vals = axis.stops();
    let mut out: Vec<(u32, i32)> = Vec::new();
    let mut i: usize = 0;
    while i < vals.len()
        invariant
            i <= vals@.len(),
            out@.len() == i as int,
            forall|k: int| 0 <= k < i ==> #[trigger] out@[k] == (axis.tag, vals@[k]),
        decreases vals@.len() - i,
    {
        out.push((axis.tag, vals[i]));
        i += 1;
    }
    proof {
        assert forall|v: i32| is_stop(*axis, v as int) implies exists|k: int|
            0 <= k < out@.len() && out@[k].1 == v by {
            assert(vals@.contains(v));
            let k = choose|k: int| 0 <= k < vals@.len() && vals@[k] == v;
            assert(out@[k].1 == v);
        }
        assert(vals@.contains(axis.max));
    }
    out
}

/// Extends every partial location by every stop of one more axis.
fn extend_locations(locs: &Vec<Location>, stops: &Vec<(u32, i32)>) -> (r: Vec<Location>)
    ensures
        views(r@) == extend_grid(views(locs@), stops@),
{
    let ghost eg = extend_grid(views(locs@), stops@);
    let n = locs.len();
    let m = stops.len();
    let mut next: Vec<Location> = Vec::new();
    let mut p: usize = 0;
    while p < n
        invariant
            eg == extend_grid(views(locs@), stops@),
            n == locs@.len(),
            m == stops@.len(),
            p <= n,
            next@.len() == p * m,
            forall|w: int| 0 <= w < next@.len() ==> #[trigger] next@[w]@ == eg[w],
        decreases n - p,
    {
        let mut q: usize = 0;
        while q < m
            invariant
                eg == extend_grid(views(locs@), stops@),
                n == locs@.len(),
                m == stops@.len(),
                p < n,
                q <= m,
                next@.len() == p * m + q,
                forall|w: int| 0 <= w < next@.len() ==> #[trigger] next@[w]@ == eg[w],
            decreases m - q,
        {
            let mut loc = locs[p].dup();
            loc.coords.push(stops[q]);
            let ghost w = next@.len() as int;
            next.push(loc);
            proof {
                assert(w == p * m + q);
                assert(w < n * m) by (nonlinear_arith)
                    requires
                        w == p * m + q,
                        0 <= p < n,
                        0 <= q < m,
                ;
                assert(eg.len() == n * m);
                vstd::arithmetic::div_mod::lemma_fundamental_div_mod_converse(
                    w,
                    m as int,
                    p as int,
                    q as int,
                );
                assert(views(locs@)[p as int] == locs@[p as int]@);
                assert(eg[w] == views(locs@)[p as int].push(stops@[q as int]));
                assert(next@[w]@ == eg[w]);
            }
            q += 1;
        }
        proof {
            assert(p * m + m == (p + 1) * m) by (nonlinear_arith);
        }
        p += 1;
    }
    proof {
        assert(views(next@) =~= eg);
    }
    next
}

/// Builds the constellation of one font build: the full cartesian grid of
/// design-space locations over the per-axis stop lists, one coordinate per
/// axis in axis order, with no duplicate location.
pub fn constellation(axes: &Vec<Axis>) -> (r: Vec<Location>)
    requires
        forall|i: int| 0 <= i < axes@.len() ==> (#[trigger] axes@[i]).wf(),
    ensures
        exists|lists: Seq<Seq<(u32, i32)>>|
            #[trigger] stop_lists_of(axes@, lists) && views(r@) == grid(lists),
{
    let mut locs: Vec<Location> = Vec::new();
    let empty_loc = Location { coords: Vec::new() };
    locs.push(empty_loc);
    let ghost mut glists: Seq<Seq<(u32, i32)>> = Seq::empty();
    proof {
        assert(views(locs@) =~= grid(glists));
    }
    let mut a: usize = 0;
    while a < axes.len()
        invariant
            forall|i: int| 0 <= i < axes@.len() ==> (#[trigger] axes@[i]).wf(),
            a <= axes@.len(),
            stop_lists_of(axes@.take(a as int), glists),
            views(locs@) == grid(glists),
        decreases axes@.len() - a,
    {
        let stops = axis_stop_pairs(&axes[a]);
        locs = extend_locations(&locs, &stops);
        proof {
            let prev = glists;
            glists = glists.push(stops@);
            assert(glists.drop_last() =~= prev);
            assert(glists.last() == stops@);
            assert(grid(glists) == extend_grid(grid(prev), stops@));
            assert forall|i: int| 0 <= i < a + 1 implies stop_list_of(
                axes@.take(a + 1)[i],
                #[trigger] glists[i],
            ) by {
                if i < a {
                    assert(glists[i] == prev[i]);
                    assert(axes@.take(a as int)[i] == axes@.take(a + 1)[i]);
                }
            }
        }
        a += 1;
    }
    proof {
        assert(axes@.take(axes@.len() as int) =~= axes@);
    }
    locs
}

} // verus!
