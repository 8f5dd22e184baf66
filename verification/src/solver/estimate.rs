//! Facts about the push estimate of the plain search: it never drops by more than one
//! over a push, and it is zero on a solved state where every goal cell is a target.
use vstd::prelude::*;

use crate::data::{Dir, MapCell, Pos};
use crate::map::MapType;
use crate::rules::solved;
use crate::solver::backtracking::push_at;
use crate::solver::collections::StateView;
use crate::solver::simple::{nearest, plain_linked, plain_path, plain_step, push_estimate, targets};
use crate::state::{distinct, sorted};

verus! {

/// The sum of the distances of `boxes` to their nearest targets, without a cap.
pub open spec fn nearest_sum(ts: Seq<Pos>, boxes: Seq<Pos>) -> nat
    decreases boxes.len(),
{
    if boxes.len() == 0 {
        0
    } else {
        nearest_sum(ts, boxes.drop_last()) + nearest(boxes.last(), ts)
    }
}

/// Every goal cell of the grid is one of the targets of the map.
pub open spec fn goals_targeted(map: &MapType) -> bool {
    forall|p: Pos|
        map.spec_grid().in_bounds(p) && #[trigger] map.spec_grid().at(p) == MapCell::Goal ==> targets(map).contains(p)
}

/// The estimate is the sum of the distances, capped at `u64::MAX`.
pub proof fn lemma_estimate_capped(ts: Seq<Pos>, boxes: Seq<Pos>)
    ensures
        push_estimate(ts, boxes) == if nearest_sum(ts, boxes) > u64::MAX {
            u64::MAX as nat
        } else {
            nearest_sum(ts, boxes)
        },
    decreases boxes.len(),
{
    if boxes.len() > 0 {
        lemma_estimate_capped(ts, boxes.drop_last());
    }
}

/// Taking one box out of the sum takes out its distance.
pub proof fn lemma_nearest_sum_remove(ts: Seq<Pos>, a: Seq<Pos>, j: int)
    requires
        0 <= j < a.len(),
    ensures
        nearest_sum(ts, a) == nearest_sum(ts, a.remove(j)) + nearest(a[j], ts),
    decreases a.len(),
{
    if j == a.len() - 1 {
        assert(a.remove(j) =~= a.drop_last());
    } else {
        lemma_nearest_sum_remove(ts, a.drop_last(), j);
        assert(a.remove(j).drop_last() =~= a.drop_last().remove(j));
        assert(a.remove(j).last() == a.last());
    }
}

/// The sum depends only on the set of boxes.
pub proof fn lemma_nearest_sum_same_set(ts: Seq<Pos>, a: Seq<Pos>, b: Seq<Pos>)
    requires
        distinct(a),
        distinct(b),
        a.to_set() == b.to_set(),
    ensures
        nearest_sum(ts, a) == nearest_sum(ts, b),
    decreases a.len(),
{
    if a.len() == 0 {
        if b.len() > 0 {
            assert(b.to_set().contains(b[0]));
            assert(a.to_set().contains(b[0]));
        }
    } else {
        let x = a.last();
        assert(a.to_set().contains(x)) by {
            assert(a[a.len() - 1] == x);
        }
        assert(b.to_set().contains(x));
        let j = choose|j: int| 0 <= j < b.len() && b[j] == x;
        crate::state::lemma_remove_to_set(a, a.len() - 1);
        assert(a.remove(a.len() - 1) =~= a.drop_last());
        crate::state::lemma_remove_to_set(b, j);
        lemma_nearest_sum_same_set(ts, a.drop_last(), b.remove(j));
        lemma_nearest_sum_remove(ts, b, j);
    }
}

/// One step changes the distance to the nearest target by at most one.
pub proof fn lemma_nearest_step(y: Pos, d: Dir, ts: Seq<Pos>)
    requires
        y.is_inner(),
    ensures
        nearest(y, ts) <= nearest(y.step(d), ts) + 1,
    decreases ts.len(),
{
    if ts.len() > 0 {
        lemma_nearest_step(y, d, ts.drop_last());
        let z = y.step(d);
        let t = ts.last();
        assert(y.spec_dist(t) <= z.spec_dist(t) + 1);
    }
}

/// A target is at distance zero from its nearest target.
pub proof fn lemma_nearest_target(p: Pos, ts: Seq<Pos>)
    requires
        ts.contains(p),
    ensures
        nearest(p, ts) == 0,
    decreases ts.len(),
{
    if ts.last() != p {
        let k = choose|k: int| 0 <= k < ts.len() && ts[k] == p;
        assert(ts.drop_last()[k] == p);
        lemma_nearest_target(p, ts.drop_last());
    }
}

/// Boxes that all stand on targets have the estimate zero.
pub proof fn lemma_estimate_on_targets(ts: Seq<Pos>, boxes: Seq<Pos>)
    requires
        forall|i: int| 0 <= i < boxes.len() ==> ts.contains(#[trigger] boxes[i]),
    ensures
        push_estimate(ts, boxes) == 0,
    decreases boxes.len(),
{
    if boxes.len() > 0 {
        lemma_estimate_on_targets(ts, boxes.drop_last());
        lemma_nearest_target(boxes.last(), ts);
    }
}

/// Where every goal cell is a target, a solved state has the estimate zero.
pub proof fn lemma_estimate_solved(map: &MapType, boxes: Seq<Pos>)
    requires
        goals_targeted(map),
        forall|i: int| 0 <= i < boxes.len() ==> map.spec_grid().in_bounds(#[trigger] boxes[i]),
        solved(map.spec_grid(), boxes.to_set()),
    ensures
        push_estimate(targets(map), boxes) == 0,
{
    assert forall|i: int| 0 <= i < boxes.len() implies targets(map).contains(#[trigger] boxes[i]) by {
        assert(boxes.to_set().contains(boxes[i]));
        assert(map.spec_grid().at(boxes[i]) == MapCell::Goal);
    }
    lemma_estimate_on_targets(targets(map), boxes);
}

/// One push lowers the estimate by at most one.
pub proof fn lemma_estimate_step(map: &MapType, avoid: Set<Pos>, s: StateView, t: StateView)
    requires
        plain_step(map.spec_grid(), map.spec_remover(), avoid, s, t),
        sorted(s.1),
    ensures
        push_estimate(targets(map), s.1) <= push_estimate(targets(map), t.1) + 1,
{
    let g = map.spec_grid();
    let rem = map.spec_remover();
    let ts = targets(map);
    let (x, d) = choose|x: Pos, d: Dir|
        #[trigger] push_at(g, rem, s, t, x, d) && !avoid.contains(x.step(d).step(d)) && t.0 == x.step(d) && sorted(t.1);
    let y = x.step(d);
    let z = y.step(d);
    let bs = s.1.to_set();
    assert(distinct(s.1));
    assert(distinct(t.1));
    assert(bs.contains(y));
    let j = choose|j: int| 0 <= j < s.1.len() && s.1[j] == y;
    crate::state::lemma_remove_to_set(s.1, j);
    lemma_nearest_sum_remove(ts, s.1, j);
    lemma_nearest_step(y, d, ts);
    if rem == Some(z) {
        assert(t.1.to_set() == bs.remove(y));
        lemma_nearest_sum_same_set(ts, s.1.remove(j), t.1);
        assert(ts == seq![z]);
        assert(nearest(z, ts) == 0) by {
            lemma_nearest_target(z, ts);
        }
    } else {
        assert(t.1.to_set() == bs.remove(y).insert(z));
        assert(t.1.to_set().contains(z));
        let k = choose|k: int| 0 <= k < t.1.len() && t.1[k] == z;
        crate::state::lemma_remove_to_set(t.1, k);
        assert(!bs.contains(z));
        assert(t.1.remove(k).to_set() =~= bs.remove(y));
        lemma_nearest_sum_same_set(ts, s.1.remove(j), t.1.remove(k));
        lemma_nearest_sum_remove(ts, t.1, k);
    }
    lemma_estimate_capped(ts, s.1);
    lemma_estimate_capped(ts, t.1);
}

/// Along a path of pushes the estimate drops by at most one per push.
pub proof fn lemma_estimate_path(map: &MapType, avoid: Set<Pos>, p: Seq<StateView>, i: int)
    requires
        plain_path(map.spec_grid(), map.spec_remover(), avoid, p),
        sorted(p[0].1),
        0 <= i < p.len(),
    ensures
        push_estimate(targets(map), p[i].1) <= (p.len() - 1 - i) + push_estimate(targets(map), p.last().1),
    decreases p.len() - i,
{
    if i < p.len() - 1 {
        assert(plain_linked(map.spec_grid(), map.spec_remover(), avoid, p, i));
        if i > 0 {
            assert(plain_linked(map.spec_grid(), map.spec_remover(), avoid, p, i - 1));
        }
        lemma_estimate_step(map, avoid, p[i], p[i + 1]);
        lemma_estimate_path(map, avoid, p, i + 1);
    }
}

/// Along a path of pushes the boxes stay on the grid.
pub proof fn lemma_path_on_grid(map: &MapType, avoid: Set<Pos>, p: Seq<StateView>, i: int)
    requires
        plain_path(map.spec_grid(), map.spec_remover(), avoid, p),
        forall|k: int| 0 <= k < p[0].1.len() ==> map.spec_grid().in_bounds(#[trigger] p[0].1[k]),
        0 <= i < p.len(),
    ensures
        forall|k: int| 0 <= k < p[i].1.len() ==> map.spec_grid().in_bounds(#[trigger] p[i].1[k]),
    decreases i,
{
    if i > 0 {
        let g = map.spec_grid();
        let rem = map.spec_remover();
        lemma_path_on_grid(map, avoid, p, i - 1);
        assert(plain_linked(g, rem, avoid, p, i - 1));
        let s = p[i - 1];
        let t = p[i];
        let (x, d) = choose|x: Pos, d: Dir|
            #[trigger] push_at(g, rem, s, t, x, d) && !avoid.contains(x.step(d).step(d)) && t.0 == x.step(d) && sorted(t.1);
        assert forall|k: int| 0 <= k < t.1.len() implies g.in_bounds(#[trigger] t.1[k]) by {
            assert(t.1.to_set().contains(t.1[k]));
            if t.1[k] != x.step(d).step(d) {
                assert(s.1.to_set().contains(t.1[k]));
                let m = choose|m: int| 0 <= m < s.1.len() && s.1[m] == t.1[k];
            }
        }
    }
}

} // verus!
