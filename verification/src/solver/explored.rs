//! What a search that finds nothing shows: the states it expanded stand for every state
//! that moves from the start lead to, and none of them is solved; a box from which no lone
//! box could reach a goal or the remover makes a level unsolvable.
use vstd::prelude::*;
use vstd::multiset::Multiset;

use crate::config::Method;
use crate::data::{Dir, MapCell, Pos};
use crate::moves::Move;
use crate::reach::{adj, can_enter, connected, lemma_connected_refl, lemma_connected_step, lemma_connected_sym};
use crate::rules::{apply_move, replay, solved, step_on};
use crate::solution_formatter::grid_ok;
use crate::solver::backtracking::{can_push, push_at, search_state};
use crate::solver::collections::StateView;
use crate::solver::distances::{
    closest_ok, is_target, lemma_reaches_start, lemma_reaches_step, lone_push, push_seq, pushes_to, reaches_node, side_ok,
    PushNode,
};
use crate::solver::preprocessing::{can_push_lone, enclosed, on_border};
use crate::solver::{
    closest_box, lemma_closest_box_pos, live, move_heuristic, push_heuristic, sd_ok, spec_heuristic, SearchNode,
    StaticData,
};
use crate::vec2d::{Grid, Vec2d};

verus! {

/// No sequence of moves from the player at `player` with the boxes `boxes` solves the
/// level.
pub open spec fn no_solution(g: Grid<MapCell>, rem: Option<Pos>, player: Pos, boxes: Set<Pos>) -> bool {
    forall|m: Seq<Move>| #[trigger] replay(g, rem, player, boxes, m) matches Some((_, b)) ==> !solved(g, b)
}

/// A cell next to `b` lies on the grid and is not a wall.
pub open spec fn has_free_side(g: Grid<MapCell>, b: Pos) -> bool {
    exists|d: Dir| #[trigger] g.in_bounds(b.step(d)) && g.at(b.step(d)) != MapCell::Wall
}

/// Every box of the initial state has a free side.
pub open spec fn boxes_free_sided(sd: &StaticData) -> bool {
    forall|i: int| 0 <= i < sd.initial_state.boxes@.len() ==> has_free_side(sd.map.spec_grid(), #[trigger] sd.initial_state.boxes@[i])
}

/// The player and the boxes stand on the grid and not on walls, and every box has a free side.
pub open spec fn placed(g: Grid<MapCell>, p: Pos, bs: Set<Pos>) -> bool {
    &&& g.in_bounds(p)
    &&& g.at(p) != MapCell::Wall
    &&& forall|b: Pos| #[trigger] bs.contains(b) ==> g.in_bounds(b) && g.at(b) != MapCell::Wall && has_free_side(g, b)
}

/// The search takes every solved state it reaches for solved: always when it counts
/// pushes; when it counts moves, unless a level with a remover also has goal cells.
pub open spec fn solved_recognized(sd: &StaticData, method: Method) -> bool {
    ||| method == Method::Pushes
    ||| method == Method::Any
    ||| sd.map.spec_remover() is None
    ||| forall|p: Pos| sd.map.spec_grid().in_bounds(p) ==> sd.map.spec_grid().at(p) != MapCell::Goal
}

/// The search counts pushes only, with the player of each state moved around freely.
pub open spec fn push_method(method: Method) -> bool {
    method == Method::Pushes || method == Method::Any
}

/// `to` follows from `from` by one push with the player left where the pushed box was.
pub open spec fn player_by_push(sd: &StaticData, from: StateView, to: StateView) -> bool {
    exists|x: Pos, d: Dir| #[trigger] push_at(sd.map.spec_grid(), sd.map.spec_remover(), from, to, x, d) && to.0 == x.step(d)
}

/// A node reached by a push: if its state is solved, its estimate is zero.
pub open spec fn zero_when_solved(sd: &StaticData, method: Method, n: SearchNode) -> bool {
    n.prev is Some && solved_recognized(sd, method) && solved(sd.map.spec_grid(), n.state@.1.to_set()) ==> n.heuristic
        == (0u64, 0u64)
}

/// The queue holds an entry for the node `i`.
pub open spec fn waiting(h: Multiset<(u64, u64, usize)>, i: int) -> bool {
    exists|e: (u64, u64, usize)| #[trigger] h.contains(e) && e.2 == i
}

/// The node `i` still waits in the queue, or its state has been expanded.
pub open spec fn node_settled(h: Multiset<(u64, u64, usize)>, pm: Map<StateView, StateView>, nodes: Seq<SearchNode>, i: int) -> bool {
    waiting(h, i) || pm.contains_key(nodes[i].state@)
}

/// The expanded state `k` is not solved (where the search recognizes solved states) and
/// every live push from it has a node.
pub open spec fn expanded_ok(sd: &StaticData, method: Method, nodes: Seq<SearchNode>, k: StateView) -> bool {
    &&& solved_recognized(sd, method) ==> !solved(sd.map.spec_grid(), k.1.to_set())
    &&& forall|x: Pos, d: Dir|
        #[trigger] can_push(sd.map.spec_grid(), k, x, d) && sd.closest_push_dists.at(x.step(d).step(d)) is Some
            ==> exists|j: int| 0 <= j < nodes.len() && push_at(sd.map.spec_grid(), sd.map.spec_remover(), k, nodes[j].state@, x, d)
}

/// Some expanded state has the boxes `bs` and a player who can walk to `p`.
pub open spec fn covered(sd: &StaticData, pm: Map<StateView, StateView>, p: Pos, bs: Set<Pos>) -> bool {
    exists|k: StateView| #[trigger] pm.contains_key(k) && k.1.to_set() == bs && connected(sd.map.spec_grid(), bs, k.0, p)
}

/// One step from an inner cell is one cell away, and stepping back returns.
proof fn lemma_step_back(y: Pos, d: Dir)
    requires
        y.is_inner(),
    ensures
        y.spec_dist(y.step(d)) == 1,
        y.step(d).step(d.spec_inverse()) == y,
{
}

/// A solved state whose boxes all stand on live cells has a push estimate of zero.
proof fn lemma_solved_push_estimate(sd: &StaticData, s: StateView)
    requires
        sd_ok(sd),
        live(sd, s),
        solved(sd.map.spec_grid(), s.1.to_set()),
    ensures
        push_heuristic(sd.closest_push_dists, s.1) == 0,
{
    let g = sd.map.spec_grid();
    let c = sd.closest_push_dists;
    assert forall|i: int| 0 <= i < s.1.len() implies #[trigger] c.at(s.1[i]) == Some(0u32) by {
        let b = s.1[i];
        assert(s.1.to_set().contains(b));
        assert(g.at(b) == MapCell::Goal);
        assert(g.in_bounds(b));
        assert(closest_ok(g, sd.push_dists, b, c.at(b)));
        let v = c.at(b).unwrap();
        let (d, dest) = choose|d: Dir, dest: Pos| g.in_bounds(dest) && is_target(g, dest) && #[trigger] sd.push_dists.dist(b, d, dest) == Some(v);
        assert(sd.push_dists.dist(b, d, dest) is Some);
        assert(sd.push_dists.dist(b, d, b) == Some(0u32));
        assert(is_target(g, b));
    }
    lemma_zero_sum(c, s.1);
}

proof fn lemma_zero_sum(c: Vec2d<Option<u32>>, boxes: Seq<Pos>)
    requires
        forall|i: int| 0 <= i < boxes.len() ==> #[trigger] c.at(boxes[i]) == Some(0u32),
    ensures
        push_heuristic(c, boxes) == 0,
    decreases boxes.len(),
{
    if boxes.len() > 0 {
        let t = boxes.drop_last();
        assert forall|i: int| 0 <= i < t.len() implies #[trigger] c.at(t[i]) == Some(0u32) by {
            assert(t[i] == boxes[i]);
        }
        lemma_zero_sum(c, t);
        assert(c.at(boxes[boxes.len() - 1]) == Some(0u32));
    }
}

/// The smallest distance to a box is at most the distance to any box.
proof fn lemma_closest_box_le(player: Pos, boxes: Seq<Pos>, i: int)
    requires
        0 <= i < boxes.len(),
    ensures
        closest_box(player, boxes) <= player.spec_dist(boxes[i]),
    decreases boxes.len(),
{
    if i < boxes.len() - 1 {
        lemma_closest_box_le(player, boxes.drop_last(), i);
        assert(boxes.drop_last()[i] == boxes[i]);
    }
}

/// A solved state reached by a push of the search has an estimate of zero.
pub proof fn lemma_solved_estimate(sd: &StaticData, method: Method, from: StateView, s: StateView)
    requires
        sd_ok(sd),
        live(sd, s),
        solved(sd.map.spec_grid(), s.1.to_set()),
        solved_recognized(sd, method),
        push_method(method) || player_by_push(sd, from, s),
    ensures
        spec_heuristic(method, sd.closest_push_dists, s) == (0u64, 0u64),
{
    let g = sd.map.spec_grid();
    let c = sd.closest_push_dists;
    lemma_solved_push_estimate(sd, s);
    if !push_method(method) && s.1.len() > 0 {
        let (x, d) = choose|x: Pos, d: Dir| #[trigger] push_at(g, sd.map.spec_remover(), from, s, x, d) && s.0 == x.step(d);
        let y = x.step(d);
        let z = y.step(d);
        lemma_step_back(y, d);
        if sd.map.spec_remover() == Some(z) {
            let b = s.1[0];
            assert(s.1.to_set().contains(b));
            assert(g.in_bounds(b));
            assert(false);
        } else {
            assert(s.1.to_set().contains(z));
            let i = choose|i: int| 0 <= i < s.1.len() && s.1[i] == z;
            lemma_closest_box_le(s.0, s.1, i);
            lemma_closest_box_pos(s.0, s.1);
            assert(closest_box(s.0, s.1) == 1);
        }
        assert(move_heuristic(c, s.0, s.1) == 0);
    }
}

/// Taking an entry from the queue leaves every other node settled.
pub proof fn lemma_settled_after_pop(
    h0: Multiset<(u64, u64, usize)>,
    item: (u64, u64, usize),
    pm: Map<StateView, StateView>,
    nodes: Seq<SearchNode>,
)
    requires
        h0.contains(item),
        forall|i: int| 0 <= i < nodes.len() ==> #[trigger] node_settled(h0, pm, nodes, i),
    ensures
        forall|i: int| 0 <= i < nodes.len() && i != item.2 ==> #[trigger] node_settled(h0.remove(item), pm, nodes, i),
{
    broadcast use vstd::multiset::group_multiset_axioms;

    assert forall|i: int| 0 <= i < nodes.len() && i != item.2 implies #[trigger] node_settled(h0.remove(item), pm, nodes, i) by {
        assert(node_settled(h0, pm, nodes, i));
        if waiting(h0, i) {
            let e = choose|e: (u64, u64, usize)| #[trigger] h0.contains(e) && e.2 == i;
            assert(e != item);
            assert(h0.remove(item).contains(e));
        }
    }
}

/// After the node `idx` was taken from the queue, its state expanded and nodes added for
/// its neighbors, every node is settled and every expanded state is expanded properly.
pub proof fn lemma_after_expand(
    sd: &StaticData,
    method: Method,
    h1: Multiset<(u64, u64, usize)>,
    h2: Multiset<(u64, u64, usize)>,
    pm0: Map<StateView, StateView>,
    pm: Map<StateView, StateView>,
    nodes1: Seq<SearchNode>,
    nodes2: Seq<SearchNode>,
    idx: int,
    neighbors: Seq<StateView>,
)
    requires
        0 <= idx < nodes1.len(),
        pm.dom() == pm0.dom().insert(nodes1[idx].state@),
        forall|i: int| 0 <= i < nodes1.len() && i != idx ==> #[trigger] node_settled(h1, pm0, nodes1, i),
        forall|k: StateView| #[trigger] pm0.contains_key(k) ==> expanded_ok(sd, method, nodes1, k),
        solved_recognized(sd, method) ==> !solved(sd.map.spec_grid(), nodes1[idx].state@.1.to_set()),
        forall|x: Pos, d: Dir|
            #[trigger] can_push(sd.map.spec_grid(), nodes1[idx].state@, x, d) && sd.closest_push_dists.at(x.step(d).step(d)) is Some
                ==> exists|i: int| 0 <= i < neighbors.len() && push_at(sd.map.spec_grid(), sd.map.spec_remover(), nodes1[idx].state@, neighbors[i], x, d),
        nodes2.len() == nodes1.len() + neighbors.len(),
        forall|j: int| 0 <= j < nodes1.len() ==> nodes2[j] == nodes1[j],
        forall|a: int| 0 <= a < neighbors.len() ==> nodes2[nodes1.len() + a].state@ == #[trigger] neighbors[a],
        forall|j: int| 0 <= j < nodes1.len() && waiting(h1, j) ==> #[trigger] waiting(h2, j),
        forall|j: int| nodes1.len() <= j < nodes2.len() ==> #[trigger] waiting(h2, j),
    ensures
        forall|i: int| 0 <= i < nodes2.len() ==> #[trigger] node_settled(h2, pm, nodes2, i),
        forall|k: StateView| #[trigger] pm.contains_key(k) ==> expanded_ok(sd, method, nodes2, k),
{
    let g = sd.map.spec_grid();
    let rem = sd.map.spec_remover();
    let cur = nodes1[idx].state@;
    assert forall|i: int| 0 <= i < nodes2.len() implies #[trigger] node_settled(h2, pm, nodes2, i) by {
        if i < nodes1.len() {
            assert(nodes2[i] == nodes1[i]);
            if i != idx {
                assert(node_settled(h1, pm0, nodes1, i));
                if pm0.contains_key(nodes1[i].state@) {
                    assert(pm.dom().contains(nodes1[i].state@));
                }
            } else {
                assert(pm.dom().contains(cur));
            }
        }
    }
    assert forall|k: StateView| #[trigger] pm.contains_key(k) implies expanded_ok(sd, method, nodes2, k) by {
        assert forall|x: Pos, d: Dir|
            #[trigger] can_push(g, k, x, d) && sd.closest_push_dists.at(x.step(d).step(d)) is Some implies exists|j: int|
                0 <= j < nodes2.len() && push_at(g, rem, k, nodes2[j].state@, x, d) by {
            if k == cur {
                let i = choose|i: int| 0 <= i < neighbors.len() && push_at(g, rem, cur, neighbors[i], x, d);
                assert(nodes2[nodes1.len() + i].state@ == neighbors[i]);
            } else {
                assert(pm0.dom().contains(k));
                assert(expanded_ok(sd, method, nodes1, k));
                let j = choose|j: int| 0 <= j < nodes1.len() && push_at(g, rem, k, nodes1[j].state@, x, d);
                assert(nodes2[j] == nodes1[j]);
            }
        }
        if k != cur {
            assert(pm0.dom().contains(k));
            assert(expanded_ok(sd, method, nodes1, k));
        }
    }
}

/// A step on the grid is a step of the position, and stepping back returns.
proof fn lemma_step_on(g: Grid<MapCell>, p: Pos, d: Dir)
    requires
        step_on(g, p, d) is Some,
    ensures
        step_on(g, p, d).unwrap() == p.step(d),
        p.step(d).step(d.spec_inverse()) == p,
        adj(p, p.step(d)),
        g.in_bounds(p.step(d)),
{
}

/// A cell that is not a wall lies inside the border of an enclosed grid.
proof fn lemma_inner(g: Grid<MapCell>, p: Pos)
    requires
        enclosed(g),
        g.in_bounds(p),
        g.at(p) != MapCell::Wall,
    ensures
        p.is_inner(),
{
    assert(!on_border(g, p));
}

/// Moves that can be replayed can be replayed in part.
proof fn lemma_replay_prefix(g: Grid<MapCell>, rem: Option<Pos>, p: Pos, bs: Set<Pos>, m: Seq<Move>, i: int)
    requires
        replay(g, rem, p, bs, m) is Some,
        0 <= i <= m.len(),
    ensures
        replay(g, rem, p, bs, m.take(i)) is Some,
    decreases m.len(),
{
    if i == m.len() {
        assert(m.take(i) =~= m);
    } else {
        lemma_replay_prefix(g, rem, p, bs, m.drop_last(), i);
        assert(m.drop_last().take(i) =~= m.take(i));
    }
}

/// Replaying the first `i + 1` moves is replaying the first `i` and then move `i`.
proof fn lemma_replay_next(g: Grid<MapCell>, rem: Option<Pos>, p: Pos, bs: Set<Pos>, m: Seq<Move>, i: int)
    requires
        0 <= i < m.len(),
        replay(g, rem, p, bs, m.take(i)) is Some,
    ensures
        replay(g, rem, p, bs, m.take(i + 1)) == apply_move(
            g,
            rem,
            replay(g, rem, p, bs, m.take(i)).unwrap().0,
            replay(g, rem, p, bs, m.take(i)).unwrap().1,
            m[i],
        ),
{
    assert(m.take(i + 1).drop_last() =~= m.take(i));
    assert(m.take(i + 1).last() == m[i]);
}

/// Replaying all moves is replaying the first `i` and then the rest.
proof fn lemma_replay_split(g: Grid<MapCell>, rem: Option<Pos>, p: Pos, bs: Set<Pos>, m: Seq<Move>, i: int)
    requires
        0 <= i <= m.len(),
        replay(g, rem, p, bs, m.take(i)) is Some,
    ensures
        replay(g, rem, p, bs, m) == replay(
            g,
            rem,
            replay(g, rem, p, bs, m.take(i)).unwrap().0,
            replay(g, rem, p, bs, m.take(i)).unwrap().1,
            m.skip(i),
        ),
{
    crate::rules::lemma_replay_concat(g, rem, p, bs, m.take(i), m.skip(i));
    assert(m.take(i) + m.skip(i) =~= m);
}

/// Replaying moves is applying the first one and replaying the rest.
proof fn lemma_replay_first(g: Grid<MapCell>, rem: Option<Pos>, p: Pos, bs: Set<Pos>, m: Seq<Move>)
    requires
        m.len() > 0,
        replay(g, rem, p, bs, m) is Some,
    ensures
        apply_move(g, rem, p, bs, m[0]) is Some,
        replay(g, rem, p, bs, m) == replay(g, rem, apply_move(g, rem, p, bs, m[0]).unwrap().0, apply_move(g, rem, p, bs, m[0]).unwrap().1, m.skip(1)),
{
    lemma_replay_prefix(g, rem, p, bs, m, 0);
    assert(m.take(0) =~= Seq::<Move>::empty());
    lemma_replay_next(g, rem, p, bs, m, 0);
    lemma_replay_prefix(g, rem, p, bs, m, 1);
    lemma_replay_split(g, rem, p, bs, m, 1);
}

/// A push sequence can be started one push earlier.
proof fn lemma_reaches_prepend(g: Grid<MapCell>, first: PushNode, second: PushNode, n: PushNode, k: nat)
    requires
        lone_push(g, first, second),
        reaches_node(g, second, n, k),
    ensures
        reaches_node(g, first, n, k + 1),
{
    let s = choose|s: Seq<PushNode>| #[trigger] push_seq(g, s) && s.len() == k + 1 && s[0] == second && s.last() == n;
    let t = seq![first] + s;
    assert forall|i: int| 0 <= i < t.len() - 1 implies #[trigger] lone_push(g, t[i], t[i + 1]) by {
        if i > 0 {
            let j = i - 1;
            assert(t[i] == s[j]);
            assert(t[i + 1] == s[j + 1]);
            assert(lone_push(g, s[j], s[j + 1]));
        }
    }
    assert(push_seq(g, t));
    assert(t.last() == s.last());
}

/// A box of a level that the moves `m` solve, with the player able to walk around it to
/// the cell behind its side `dir`, can be brought to a goal or the remover alone, starting
/// from that side.
proof fn lemma_box_future(g: Grid<MapCell>, rem: Option<Pos>, p: Pos, bs: Set<Pos>, m: Seq<Move>, b: Pos, dir: Dir)
    requires
        grid_ok(g, rem),
        replay(g, rem, p, bs, m) matches Some((_, fb)) && solved(g, fb),
        bs.contains(b),
        g.in_bounds(b),
        connected(g, set![b], b.step(dir.spec_inverse()), p),
    ensures
        exists|dest: Pos, side: Dir, k: nat|
            g.in_bounds(dest) && is_target(g, dest) && #[trigger] reaches_node(g, (b, dir), (dest, side), k),
    decreases m.len(),
{
    if m.len() == 0 {
        assert(g.at(b) == MapCell::Goal);
        lemma_reaches_start(g, (b, dir));
        assert(reaches_node(g, (b, dir), (b, dir), 0));
    } else {
        lemma_replay_first(g, rem, p, bs, m);
        let mv = m[0];
        let (p1, bs1) = apply_move(g, rem, p, bs, mv).unwrap();
        let np = step_on(g, p, mv.dir).unwrap();
        lemma_step_on(g, p, mv.dir);
        if mv.is_push && np == b {
            let nb = step_on(g, np, mv.dir).unwrap();
            lemma_step_on(g, np, mv.dir);
            assert(can_push_lone(g, b, b.step(dir.spec_inverse()), mv.dir));
            assert(lone_push(g, (b, dir), (nb, mv.dir)));
            lemma_reaches_start(g, (b, dir));
            lemma_reaches_step(g, (b, dir), (b, dir), (nb, mv.dir), 0);
            if rem == Some(nb) {
                assert(g.at(nb) == MapCell::Remover);
                assert(reaches_node(g, (b, dir), (nb, mv.dir), 1));
            } else {
                assert(bs1.contains(nb));
                lemma_connected_refl(g, set![nb], b);
                lemma_box_future(g, rem, p1, bs1, m.skip(1), nb, mv.dir);
                let (dest, side, k) = choose|dest: Pos, side: Dir, k: nat|
                    g.in_bounds(dest) && is_target(g, dest) && #[trigger] reaches_node(g, (nb, mv.dir), (dest, side), k);
                lemma_reaches_prepend(g, (b, dir), (nb, mv.dir), (dest, side), k);
            }
        } else {
            assert(np != b);
            assert(bs1.contains(b));
            assert(can_enter(g, set![b], np));
            lemma_connected_step(g, set![b], b.step(dir.spec_inverse()), p, np);
            lemma_box_future(g, rem, p1, bs1, m.skip(1), b, dir);
        }
    }
}

/// A box of a level that the moves `m` solve, with a free side, can be brought to a goal
/// or the remover alone from some side that the player can stand on.
proof fn lemma_box_to_target(g: Grid<MapCell>, rem: Option<Pos>, p: Pos, bs: Set<Pos>, m: Seq<Move>, b: Pos)
    requires
        grid_ok(g, rem),
        replay(g, rem, p, bs, m) matches Some((_, fb)) && solved(g, fb),
        placed(g, p, bs),
        bs.contains(b),
    ensures
        exists|dir: Dir, dest: Pos, side: Dir, k: nat|
            side_ok(g, b, dir) && g.in_bounds(dest) && is_target(g, dest) && #[trigger] reaches_node(g, (b, dir), (dest, side), k),
    decreases m.len(),
{
    if m.len() == 0 {
        assert(g.at(b) == MapCell::Goal);
        assert(has_free_side(g, b));
        let d = choose|d: Dir| #[trigger] g.in_bounds(b.step(d)) && g.at(b.step(d)) != MapCell::Wall;
        let dir = d.spec_inverse();
        assert(dir.spec_inverse() == d);
        assert(side_ok(g, b, dir));
        lemma_reaches_start(g, (b, dir));
        assert(reaches_node(g, (b, dir), (b, dir), 0));
    } else {
        lemma_replay_first(g, rem, p, bs, m);
        let mv = m[0];
        let (p1, bs1) = apply_move(g, rem, p, bs, mv).unwrap();
        let np = step_on(g, p, mv.dir).unwrap();
        lemma_step_on(g, p, mv.dir);
        if mv.is_push && np == b {
            assert(b.step(mv.dir.spec_inverse()) == p);
            assert(side_ok(g, b, mv.dir));
            lemma_connected_refl(g, set![b], p);
            lemma_box_future(g, rem, p, bs, m, b, mv.dir);
        } else {
            assert(np != b);
            lemma_placed_step(g, rem, p, bs, mv);
            lemma_box_to_target(g, rem, p1, bs1, m.skip(1), b);
        }
    }
}

/// A move keeps the player and the boxes placed.
proof fn lemma_placed_step(g: Grid<MapCell>, rem: Option<Pos>, p: Pos, bs: Set<Pos>, mv: Move)
    requires
        placed(g, p, bs),
        apply_move(g, rem, p, bs, mv) is Some,
    ensures
        placed(g, apply_move(g, rem, p, bs, mv).unwrap().0, apply_move(g, rem, p, bs, mv).unwrap().1),
{
    let (p1, bs1) = apply_move(g, rem, p, bs, mv).unwrap();
    let np = step_on(g, p, mv.dir).unwrap();
    lemma_step_on(g, p, mv.dir);
    if mv.is_push {
        let nb = step_on(g, np, mv.dir).unwrap();
        lemma_step_on(g, np, mv.dir);
        assert forall|b: Pos| #[trigger] bs1.contains(b) implies g.in_bounds(b) && g.at(b) != MapCell::Wall && has_free_side(g, b) by {
            if b == nb {
                let d = mv.dir.spec_inverse();
                assert(b.step(d) == np);
                assert(g.in_bounds(b.step(d)) && g.at(b.step(d)) != MapCell::Wall);
            } else {
                assert(bs.contains(b));
            }
        }
    }
}

/// Where a level that the moves `m` solve has a box, a lone box could reach a goal or the
/// remover.
proof fn lemma_closest_some(sd: &StaticData, p: Pos, bs: Set<Pos>, m: Seq<Move>, b: Pos)
    requires
        sd_ok(sd),
        replay(sd.map.spec_grid(), sd.map.spec_remover(), p, bs, m) matches Some((_, fb)) && solved(sd.map.spec_grid(), fb),
        placed(sd.map.spec_grid(), p, bs),
        bs.contains(b),
    ensures
        sd.closest_push_dists.at(b) is Some,
{
    let g = sd.map.spec_grid();
    lemma_box_to_target(g, sd.map.spec_remover(), p, bs, m, b);
    let (dir, dest, side, k) = choose|dir: Dir, dest: Pos, side: Dir, k: nat|
        side_ok(g, b, dir) && g.in_bounds(dest) && is_target(g, dest) && #[trigger] reaches_node(g, (b, dir), (dest, side), k);
    assert(pushes_to(g, b, dir, dest, k));
    assert(sd.push_dists.dist(b, dir, dest) is Some);
    assert(closest_ok(g, sd.push_dists, b, sd.closest_push_dists.at(b)));
}

/// Along moves that solve the level from the initial state, every state reached is
/// covered by an expanded state, when nothing is left in the queue.
proof fn lemma_covered_prefix(
    sd: &StaticData,
    method: Method,
    nodes: Seq<SearchNode>,
    pm: Map<StateView, StateView>,
    root: StateView,
    m: Seq<Move>,
    i: int,
)
    requires
        sd_ok(sd),
        boxes_free_sided(sd),
        root.1 == sd.initial_state@.1,
        connected(sd.map.spec_grid(), root.1.to_set(), sd.initial_state@.0, root.0),
        pm.contains_key(root),
        forall|j: int| 0 <= j < nodes.len() ==> pm.contains_key((#[trigger] nodes[j]).state@),
        forall|k: StateView| #[trigger] pm.contains_key(k) ==> expanded_ok(sd, method, nodes, k),
        replay(sd.map.spec_grid(), sd.map.spec_remover(), sd.initial_state@.0, sd.initial_state@.1.to_set(), m) matches Some((_, fb))
            && solved(sd.map.spec_grid(), fb),
        0 <= i <= m.len(),
    ensures
        replay(sd.map.spec_grid(), sd.map.spec_remover(), sd.initial_state@.0, sd.initial_state@.1.to_set(), m.take(i)) matches Some((p, bs))
            && placed(sd.map.spec_grid(), p, bs) && covered(sd, pm, p, bs),
    decreases i,
{
    let g = sd.map.spec_grid();
    let rem = sd.map.spec_remover();
    let init = sd.initial_state@;
    let ibs = init.1.to_set();
    lemma_replay_prefix(g, rem, init.0, ibs, m, i);
    if i == 0 {
        assert(m.take(0) =~= Seq::<Move>::empty());
        assert(search_state(g, init));
        assert forall|b: Pos| #[trigger] ibs.contains(b) implies g.in_bounds(b) && g.at(b) != MapCell::Wall && has_free_side(g, b) by {
            let j = choose|j: int| 0 <= j < init.1.len() && init.1[j] == b;
            assert(has_free_side(g, sd.initial_state.boxes@[j]));
        }
        assert(can_enter(g, ibs, init.0));
        lemma_connected_sym(g, ibs, init.0, root.0);
        assert(root.1.to_set() == ibs);
    } else {
        lemma_covered_prefix(sd, method, nodes, pm, root, m, i - 1);
        let (p, bs) = replay(g, rem, init.0, ibs, m.take(i - 1)).unwrap();
        lemma_replay_next(g, rem, init.0, ibs, m, i - 1);
        let mv = m[i - 1];
        let (p1, bs1) = apply_move(g, rem, p, bs, mv).unwrap();
        lemma_placed_step(g, rem, p, bs, mv);
        let k = choose|k: StateView| #[trigger] pm.contains_key(k) && k.1.to_set() == bs && connected(g, bs, k.0, p);
        let np = step_on(g, p, mv.dir).unwrap();
        lemma_step_on(g, p, mv.dir);
        if !mv.is_push {
            assert(can_enter(g, bs, np));
            lemma_connected_step(g, bs, k.0, p, np);
        } else {
            let d = mv.dir;
            let nb = step_on(g, np, d).unwrap();
            lemma_step_on(g, np, d);
            lemma_inner(g, p);
            lemma_inner(g, np);
            assert(can_push(g, k, p, d));
            lemma_replay_split(g, rem, init.0, ibs, m, i);
            assert(sd.closest_push_dists.at(nb) is Some) by {
                if rem == Some(nb) {
                    assert(g.at(nb) == MapCell::Remover);
                    assert(nb.step(d.spec_inverse()) == np);
                    assert(side_ok(g, nb, d));
                    assert(sd.push_dists.dist(nb, d, nb) == Some(0u32));
                    assert(closest_ok(g, sd.push_dists, nb, sd.closest_push_dists.at(nb)));
                } else {
                    assert(bs1.contains(nb));
                    lemma_closest_some(sd, p1, bs1, m.skip(i), nb);
                }
            }
            assert(expanded_ok(sd, method, nodes, k));
            let j = choose|j: int| 0 <= j < nodes.len() && push_at(g, rem, k, nodes[j].state@, p, d);
            let e = nodes[j].state@;
            assert(pm.contains_key(e));
            assert(e.1.to_set() == bs1);
            assert(can_enter(g, bs1, np));
            lemma_connected_sym(g, bs1, np, e.0);
        }
    }
}

/// With the queue empty, every node has been expanded, and the expanded states stand for
/// every state that moves from the initial state reach; so no moves solve the level.
pub proof fn lemma_exhausted(
    sd: &StaticData,
    method: Method,
    nodes: Seq<SearchNode>,
    pm: Map<StateView, StateView>,
    root: StateView,
)
    requires
        sd_ok(sd),
        solved_recognized(sd, method),
        boxes_free_sided(sd),
        nodes.len() > 0,
        nodes[0].state@ == root,
        root.1 == sd.initial_state@.1,
        connected(sd.map.spec_grid(), root.1.to_set(), sd.initial_state@.0, root.0),
        forall|i: int| 0 <= i < nodes.len() ==> #[trigger] node_settled(Multiset::empty(), pm, nodes, i),
        forall|k: StateView| #[trigger] pm.contains_key(k) ==> expanded_ok(sd, method, nodes, k),
    ensures
        no_solution(sd.map.spec_grid(), sd.map.spec_remover(), sd.initial_state@.0, sd.initial_state@.1.to_set()),
{
    broadcast use vstd::multiset::group_multiset_axioms;

    let g = sd.map.spec_grid();
    let rem = sd.map.spec_remover();
    let init = sd.initial_state@;
    assert forall|i: int| 0 <= i < nodes.len() implies pm.contains_key((#[trigger] nodes[i]).state@) by {
        assert(node_settled(Multiset::empty(), pm, nodes, i));
        if waiting(Multiset::empty(), i) {
            let e = choose|e: (u64, u64, usize)| #[trigger] Multiset::<(u64, u64, usize)>::empty().contains(e) && e.2 == i;
        }
    }
    assert(pm.contains_key(nodes[0].state@));
    assert forall|m: Seq<Move>| #[trigger] replay(g, rem, init.0, init.1.to_set(), m) is Some implies !solved(g, replay(g, rem, init.0, init.1.to_set(), m).unwrap().1) by {
        if solved(g, replay(g, rem, init.0, init.1.to_set(), m).unwrap().1) {
            lemma_covered_prefix(sd, method, nodes, pm, root, m, m.len() as int);
            assert(m.take(m.len() as int) =~= m);
            let (p, bs) = replay(g, rem, init.0, init.1.to_set(), m).unwrap();
            let k = choose|k: StateView| #[trigger] pm.contains_key(k) && k.1.to_set() == bs && connected(g, bs, k.0, p);
            assert(expanded_ok(sd, method, nodes, k));
        }
    }
}

/// A level that some moves solve has every box where a lone box could reach a goal or
/// the remover.
pub proof fn lemma_dead_box_unsolvable(sd: &StaticData, i: int)
    requires
        sd_ok(sd),
        boxes_free_sided(sd),
        0 <= i < sd.initial_state.boxes@.len(),
        sd.closest_push_dists.at(sd.initial_state.boxes@[i]) is None,
    ensures
        no_solution(sd.map.spec_grid(), sd.map.spec_remover(), sd.initial_state@.0, sd.initial_state@.1.to_set()),
{
    let g = sd.map.spec_grid();
    let rem = sd.map.spec_remover();
    let init = sd.initial_state@;
    let ibs = init.1.to_set();
    assert(search_state(g, init));
    assert forall|b: Pos| #[trigger] ibs.contains(b) implies g.in_bounds(b) && g.at(b) != MapCell::Wall && has_free_side(g, b) by {
        let j = choose|j: int| 0 <= j < init.1.len() && init.1[j] == b;
        assert(has_free_side(g, sd.initial_state.boxes@[j]));
    }
    assert(ibs.contains(init.1[i]));
    assert forall|m: Seq<Move>| #[trigger] replay(g, rem, init.0, ibs, m) is Some implies !solved(g, replay(g, rem, init.0, ibs, m).unwrap().1) by {
        if solved(g, replay(g, rem, init.0, ibs, m).unwrap().1) {
            lemma_closest_some(sd, init.0, ibs, m, init.1[i]);
        }
    }
}

/// A solved initial state whose boxes have free sides keeps every box where a lone box
/// could reach a goal.
pub proof fn lemma_solved_start_live(sd: &StaticData)
    requires
        sd_ok(sd),
        boxes_free_sided(sd),
        solved(sd.map.spec_grid(), sd.initial_state@.1.to_set()),
    ensures
        live(sd, sd.initial_state@),
{
    let g = sd.map.spec_grid();
    let rem = sd.map.spec_remover();
    let init = sd.initial_state@;
    let ibs = init.1.to_set();
    assert(search_state(g, init));
    assert forall|b: Pos| #[trigger] ibs.contains(b) implies g.in_bounds(b) && g.at(b) != MapCell::Wall && has_free_side(g, b) by {
        let j = choose|j: int| 0 <= j < init.1.len() && init.1[j] == b;
        assert(has_free_side(g, sd.initial_state.boxes@[j]));
    }
    assert(replay(g, rem, init.0, ibs, Seq::<Move>::empty()) == Some((init.0, ibs)));
    assert forall|i: int| 0 <= i < init.1.len() implies (#[trigger] sd.closest_push_dists.at(init.1[i])) is Some by {
        assert(ibs.contains(init.1[i]));
        lemma_closest_some(sd, init.0, ibs, Seq::<Move>::empty(), init.1[i]);
    }
}

} // verus!
