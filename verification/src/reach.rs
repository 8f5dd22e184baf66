//! Where the player can walk: walks on the grid and the cells they connect.
use vstd::prelude::*;

use crate::data::{Dir, MapCell, Pos};
use crate::rules::step_on;
use crate::vec2d::Grid;

verus! {

/// `p` and `q` are next to each other (up, down, left or right).
pub open spec fn adj(p: Pos, q: Pos) -> bool {
    ||| p.r == q.r && (p.c + 1 == q.c || q.c + 1 == p.c)
    ||| p.c == q.c && (p.r + 1 == q.r || q.r + 1 == p.r)
}

/// The player may step onto `q`: it lies on the grid, is not a wall and not blocked.
pub open spec fn can_enter(g: Grid<MapCell>, blocked: Set<Pos>, q: Pos) -> bool {
    g.in_bounds(q) && g.at(q) != MapCell::Wall && !blocked.contains(q)
}

/// A walk: consecutive cells are next to each other and every cell after the first one
/// can be entered.
pub open spec fn is_walk(g: Grid<MapCell>, blocked: Set<Pos>, w: Seq<Pos>) -> bool {
    &&& w.len() > 0
    &&& forall|i: int| 0 <= i < w.len() - 1 ==> #[trigger] adj(w[i], w[i + 1])
    &&& forall|i: int| 1 <= i < w.len() ==> can_enter(g, blocked, #[trigger] w[i])
}

/// The player can walk from `a` to `b` without entering walls or blocked cells.
pub open spec fn connected(g: Grid<MapCell>, blocked: Set<Pos>, a: Pos, b: Pos) -> bool {
    exists|w: Seq<Pos>| #[trigger] is_walk(g, blocked, w) && w[0] == a && w.last() == b
}

/// Every cell is connected to itself.
pub proof fn lemma_connected_refl(g: Grid<MapCell>, blocked: Set<Pos>, a: Pos)
    ensures
        connected(g, blocked, a, a),
{
    let w = seq![a];
    assert(is_walk(g, blocked, w));
}

/// A walk can be extended by one step.
pub proof fn lemma_connected_step(g: Grid<MapCell>, blocked: Set<Pos>, a: Pos, p: Pos, q: Pos)
    requires
        connected(g, blocked, a, p),
        adj(p, q),
        can_enter(g, blocked, q),
    ensures
        connected(g, blocked, a, q),
{
    let w = choose|w: Seq<Pos>| #[trigger] is_walk(g, blocked, w) && w[0] == a && w.last() == p;
    let w2 = w.push(q);
    assert forall|i: int| 0 <= i < w2.len() - 1 implies #[trigger] adj(w2[i], w2[i + 1]) by {
        if i < w.len() - 1 {
            assert(adj(w[i], w[i + 1]));
        }
    }
    assert forall|i: int| 1 <= i < w2.len() implies can_enter(g, blocked, #[trigger] w2[i]) by {
        if i < w.len() {
            assert(can_enter(g, blocked, w[i]));
        }
    }
    assert(is_walk(g, blocked, w2));
}

/// Walks can be joined.
pub proof fn lemma_connected_trans(g: Grid<MapCell>, blocked: Set<Pos>, a: Pos, b: Pos, c: Pos)
    requires
        connected(g, blocked, a, b),
        connected(g, blocked, b, c),
    ensures
        connected(g, blocked, a, c),
{
    let w1 = choose|w: Seq<Pos>| #[trigger] is_walk(g, blocked, w) && w[0] == a && w.last() == b;
    let w2 = choose|w: Seq<Pos>| #[trigger] is_walk(g, blocked, w) && w[0] == b && w.last() == c;
    let w = w1 + w2.skip(1);
    assert forall|i: int| 0 <= i < w.len() - 1 implies #[trigger] adj(w[i], w[i + 1]) by {
        if i < w1.len() - 1 {
            assert(adj(w1[i], w1[i + 1]));
        } else if i == w1.len() - 1 {
            let z: int = 0;
            assert(adj(w2[z], w2[z + 1]));
        } else {
            let j = i - w1.len() + 1;
            assert(adj(w2[j], w2[j + 1]));
        }
    }
    assert forall|i: int| 1 <= i < w.len() implies can_enter(g, blocked, #[trigger] w[i]) by {
        if i < w1.len() {
            assert(can_enter(g, blocked, w1[i]));
        } else {
            let j = i - w1.len() + 1;
            assert(can_enter(g, blocked, w2[j]));
        }
    }
    assert(is_walk(g, blocked, w));
    if w2.len() == 1 {
        assert(w.last() == w1.last());
    } else {
        assert(w.last() == w2.last());
    }
}

/// A walk can be walked back when its start can be entered.
pub proof fn lemma_connected_sym(g: Grid<MapCell>, blocked: Set<Pos>, a: Pos, b: Pos)
    requires
        connected(g, blocked, a, b),
        can_enter(g, blocked, a),
    ensures
        connected(g, blocked, b, a),
{
    let w = choose|w: Seq<Pos>| #[trigger] is_walk(g, blocked, w) && w[0] == a && w.last() == b;
    let r = w.reverse();
    assert forall|i: int| 0 <= i < r.len() - 1 implies #[trigger] adj(r[i], r[i + 1]) by {
        let j = w.len() - 2 - i;
        assert(adj(w[j], w[j + 1]));
    }
    assert forall|i: int| 1 <= i < r.len() implies can_enter(g, blocked, #[trigger] r[i]) by {
        let j = w.len() - 1 - i;
        if j >= 1 {
            assert(can_enter(g, blocked, w[j]));
        }
    }
    assert(is_walk(g, blocked, r));
}

/// Every cell of a walk from a member of a closed set is a member.
proof fn lemma_closed_walk(g: Grid<MapCell>, blocked: Set<Pos>, s: Set<Pos>, w: Seq<Pos>, i: int)
    requires
        is_walk(g, blocked, w),
        s.contains(w[0]),
        0 <= i < w.len(),
        forall|p: Pos, q: Pos|
            #![trigger s.contains(p), adj(p, q)]
            s.contains(p) && adj(p, q) && can_enter(g, blocked, q) ==> s.contains(q),
    ensures
        s.contains(w[i]),
    decreases i,
{
    if i > 0 {
        lemma_closed_walk(g, blocked, s, w, i - 1);
        let j = i - 1;
        assert(adj(w[j], w[j + 1]));
        assert(can_enter(g, blocked, w[i]));
    }
}

/// A set that holds `a` and every enterable neighbor of its members holds every cell
/// connected to `a`.
pub proof fn lemma_closed_contains(g: Grid<MapCell>, blocked: Set<Pos>, s: Set<Pos>, a: Pos, b: Pos)
    requires
        s.contains(a),
        forall|p: Pos, q: Pos|
            #![trigger s.contains(p), adj(p, q)]
            s.contains(p) && adj(p, q) && can_enter(g, blocked, q) ==> s.contains(q),
        connected(g, blocked, a, b),
    ensures
        s.contains(b),
{
    let w = choose|w: Seq<Pos>| #[trigger] is_walk(g, blocked, w) && w[0] == a && w.last() == b;
    lemma_closed_walk(g, blocked, s, w, w.len() - 1);
}

/// An inner cell is next to its neighbors.
pub proof fn lemma_adj_step(p: Pos, d: Dir)
    requires
        p.is_inner(),
    ensures
        adj(p, p.step(d)),
        adj(p.step(d), p),
        p.step(d).r == p.r + d.dr(),
        p.step(d).c == p.c + d.dc(),
{
}

/// The direction of an inner cell's neighbor.
pub proof fn lemma_adj_dir(p: Pos, q: Pos)
    requires
        p.is_inner(),
        adj(p, q),
    ensures
        q == p.step(crate::data::spec_dir(
            if q.r + 1 == p.r {
                0
            } else if q.c == p.c + 1 {
                1
            } else if q.r == p.r + 1 {
                2
            } else {
                3
            },
        )),
{
}

/// Every cell of a walk is connected to its start.
pub proof fn lemma_connected_walk_prefix(g: Grid<MapCell>, blocked: Set<Pos>, w: Seq<Pos>, i: int)
    requires
        is_walk(g, blocked, w),
        0 <= i < w.len(),
    ensures
        connected(g, blocked, w[0], w[i]),
{
    let t = w.take(i + 1);
    assert forall|k: int| 0 <= k < t.len() - 1 implies #[trigger] adj(t[k], t[k + 1]) by {
        assert(adj(w[k], w[k + 1]));
    }
    assert forall|k: int| 1 <= k < t.len() implies can_enter(g, blocked, #[trigger] t[k]) by {
        assert(can_enter(g, blocked, w[k]));
    }
    assert(is_walk(g, blocked, t));
}

} // verus!
