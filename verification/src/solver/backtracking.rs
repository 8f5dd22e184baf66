//! Turning the chain of states found by the search into the moves of the player.
//!
//! Terminology: a move changes the player position by one cell; a push is a move that
//! changes a box position; a step is a move that does not.
use vstd::prelude::*;

use crate::data::{Dir, MapCell, Pos};
use crate::moves::{Move, Moves};
use crate::reach::{adj, can_enter, connected, is_walk, lemma_closed_contains, lemma_connected_refl, lemma_connected_step};
use crate::rules::{apply_move, replay, step_on};
use crate::solver::collections::{prev_links, prevs_get, StateView};
use crate::solver::preprocessing::on_border;
use crate::state::State;

use fnv::FnvHashMap;
use crate::vec2d::{Grid, Vec2d};

verus! {

/// Every cell the player can walk to from `p` (around the boxes `b`) has all four
/// neighbors on the grid.
pub open spec fn player_enclosed(g: Grid<MapCell>, b: Set<Pos>, p: Pos) -> bool {
    forall|q: Pos| #[trigger] connected(g, b, p, q) ==> g.in_bounds(q) && !on_border(g, q)
}

/// The moves of a walk: a step from every cell of the walk to the next one.
pub open spec fn walk_moves(w: Seq<Pos>, m: Seq<Move>) -> bool {
    &&& m.len() + 1 == w.len()
    &&& forall|i: int| 0 <= i < m.len() ==> !(#[trigger] m[i]).is_push && w[i].step(m[i].dir) == w[i + 1]
}

/// Walking the steps of a walk leads to its end without changing the boxes.
pub proof fn lemma_replay_walk(
    g: Grid<MapCell>,
    remover: Option<Pos>,
    boxes: Set<Pos>,
    w: Seq<Pos>,
    m: Seq<Move>,
    n: int,
)
    requires
        is_walk(g, boxes, w),
        walk_moves(w, m),
        forall|i: int| 0 <= i < w.len() ==> g.in_bounds(#[trigger] w[i]) && !on_border(g, w[i]),
        0 <= n <= m.len(),
    ensures
        replay(g, remover, w[0], boxes, m.take(n)) == Some((w[n], boxes)),
    decreases n,
{
    if n > 0 {
        lemma_replay_walk(g, remover, boxes, w, m, n - 1);
        assert(m.take(n).drop_last() =~= m.take(n - 1));
        let p = w[n - 1];
        let mv = m[n - 1];
        assert(m.take(n).last() == mv);
        assert(!on_border(g, p) && g.in_bounds(p));
        assert(p.step(mv.dir) == w[n]);
        assert(step_on(g, p, mv.dir) == Some(w[n]));
        assert(can_enter(g, boxes, w[n]));
    } else {
        assert(m.take(0) =~= Seq::<Move>::empty());
    }
}

/// The steps of a shortest walk of the player from `src` to `dest` around the boxes.
#[verifier::rlimit(100)]
#[verifier::spinoff_prover]
pub fn player_steps(grid: &Vec2d<MapCell>, boxes: &Vec<Pos>, src: Pos, dest: Pos) -> (moves: Moves)
    requires
        grid.wf(),
        grid.in_bounds(src),
        forall|i: int| 0 <= i < boxes@.len() ==> grid.in_bounds(#[trigger] boxes@[i]),
        player_enclosed(grid@, boxes@.to_set(), src),
        connected(grid@, boxes@.to_set(), src, dest),
    ensures
        forall|remover: Option<Pos>|
            #[trigger] replay(grid@, remover, src, boxes@.to_set(), moves@) == Some((dest, boxes@.to_set())),
        forall|i: int| 0 <= i < moves@.len() ==> !(#[trigger] moves@[i]).is_push,
        forall|w: Seq<Pos>|
            #[trigger] is_walk(grid@, boxes@.to_set(), w) && w[0] == src && w.last() == dest ==> moves@.len() <= w.len() - 1,
{
    let ghost g = grid@;
    let ghost bs = boxes@.to_set();
    proof {
        lemma_connected_refl(g, bs, src);
    }
    if src == dest {
        let m = Moves::default();
        proof {
            assert forall|remover: Option<Pos>|
                #[trigger] replay(g, remover, src, bs, m@) == Some((dest, bs)) by {
            }
        }
        return m;
    }
    let mut box_grid: Vec2d<bool> = grid.scratchpad_with_default(false);
    let mut i: usize = 0;
    while i < boxes.len()
        invariant
            grid.wf(),
            box_grid.wf(),
            box_grid.same_dims(grid),
            i <= boxes@.len(),
            forall|j: int| 0 <= j < boxes@.len() ==> grid.in_bounds(#[trigger] boxes@[j]),
            forall|p: Pos| grid.in_bounds(p) ==> (#[trigger] box_grid.at(p) <==> exists|j: int| 0 <= j < i && boxes@[j] == p),
        decreases boxes@.len() - i,
    {
        let ghost bg0 = box_grid;
        box_grid.set(boxes[i], true);
        proof {
            assert forall|p: Pos| grid.in_bounds(p) implies (#[trigger] box_grid.at(p) <==> exists|j: int| 0 <= j < i + 1 && boxes@[j] == p) by {
                if p == boxes@[i as int] {
                    assert(boxes@[i as int] == p);
                } else {
                    assert(box_grid.at(p) == bg0.at(p));
                    if exists|j: int| 0 <= j < i + 1 && boxes@[j] == p {
                        let j = choose|j: int| 0 <= j < i + 1 && boxes@[j] == p;
                        assert(j < i);
                    }
                }
            }
        }
        i = i + 1;
    }
    proof {
        assert forall|p: Pos| grid.in_bounds(p) implies (#[trigger] box_grid.at(p) <==> bs.contains(p)) by {
            if bs.contains(p) {
                assert(boxes@.contains(p));
                let j = choose|j: int| 0 <= j < boxes@.len() && boxes@[j] == p;
            }
            if box_grid.at(p) {
                let j = choose|j: int| 0 <= j < boxes@.len() && boxes@[j] == p;
                assert(boxes@.contains(p));
            }
        }
    }
    // breadth-first search, remembering where every cell was entered from
    let mut prevs: Vec2d<Option<Pos>> = grid.scratchpad_with_default(None);
    proof {
        lemma_count_some_none(prevs.data@);
        prevs.lemma_idx(src);
        lemma_count_some_set(prevs.data@, prevs.idx(src), src);
        lemma_count_some_bound(prevs.data@.update(prevs.idx(src), Some(src)));
    }
    prevs.set(src, Some(src));
    let ghost mut depth: Map<Pos, nat> = Map::empty().insert(src, 0nat);
    let mut queue: Vec<Pos> = Vec::new();
    queue.push(src);
    let mut head: usize = 0;
    let mut found = false;
    proof {
        assert(prevs.at(src) is Some);
        assert(queue@[0] == src);
        reveal(levels_sorted);
    }
    while head < queue.len() && !found
        invariant
            g == grid@,
            bs == boxes@.to_set(),
            grid.wf(),
            prevs.wf(),
            prevs.same_dims(grid),
            box_grid.same_dims(grid),
            box_grid.wf(),
            grid.in_bounds(src),
            src != dest,
            player_enclosed(g, bs, src),
            connected(g, bs, src, dest),
            forall|p: Pos| grid.in_bounds(p) ==> (#[trigger] box_grid.at(p) <==> bs.contains(p)),
            head <= queue@.len(),
            grid.in_bounds(dest),
            queue@.len() <= prevs.data@.len(),
            queue@.len() == count_some(prevs.data@),
            queue@.no_duplicates(),
            prevs.at(src) == Some(src),
            forall|i: int| 0 <= i < queue@.len() ==> {
                let p = #[trigger] queue@[i];
                &&& grid.in_bounds(p)
                &&& prevs.at(p) is Some
                &&& connected(g, bs, src, p)
            },
            forall|p: Pos| grid.in_bounds(p) && (#[trigger] prevs.at(p)) is Some ==> queue@.contains(p),
            forall|p: Pos|
                grid.in_bounds(p) && (#[trigger] prevs.at(p)) is Some && p != src ==> {
                    let q = prevs.at(p).unwrap();
                    &&& grid.in_bounds(q)
                    &&& prevs.at(q) is Some
                    &&& depth.contains_key(q)
                    &&& depth.contains_key(p)
                    &&& depth[p] == depth[q] + 1
                    &&& adj(q, p)
                    &&& can_enter(g, bs, p)
                },
            depth.contains_key(src),
            depth[src] == 0,
            forall|i: int| 0 <= i < queue@.len() ==> depth.contains_key(#[trigger] queue@[i]),
            levels_sorted(depth, queue@),
            head < queue@.len() ==> forall|j: int| 0 <= j < queue@.len() ==> depth[#[trigger] queue@[j]] <= depth[queue@[head as int]] + 1,
            found ==> prevs.at(dest) is Some,
            found ==> depth.contains_key(dest),
            found ==> forall|w: Seq<Pos>| #[trigger] is_walk(g, bs, w) && w[0] == src && w.last() == dest ==> depth[dest] <= w.len() - 1,
            !found ==> forall|i: int, q: Pos|
                #![trigger queue@[i], adj(queue@[i], q)]
                0 <= i < head && adj(queue@[i], q) && can_enter(g, bs, q) ==> (prevs.at(q) is Some && depth.contains_key(q) && depth[q]
                    <= depth[queue@[i]] + 1),
            !found ==> prevs.at(dest) is None,
        decreases prevs.data@.len() - head,
    {
        let cur = queue[head];
        assert(connected(g, bs, src, cur));
        assert(grid.in_bounds(cur) && !on_border(g, cur));
        let ghost q0 = queue@;
        let ghost p0 = prevs;
        let ghost dcur = depth[cur];
        let mut k: usize = 0;
        while k < 4 && !found
            invariant
                g == grid@,
                bs == boxes@.to_set(),
                grid.wf(),
                prevs.wf(),
                prevs.same_dims(grid),
                box_grid.same_dims(grid),
                box_grid.wf(),
                grid.in_bounds(src),
                grid.in_bounds(cur),
                !on_border(g, cur),
                cur == q0[head as int],
                head < q0.len(),
                prevs.at(cur) is Some,
                depth.contains_key(cur),
                connected(g, bs, src, cur),
                forall|p: Pos| grid.in_bounds(p) ==> (#[trigger] box_grid.at(p) <==> bs.contains(p)),
                0 <= k <= 4,
                grid.in_bounds(dest),
                q0.len() <= queue@.len(),
                forall|i: int| 0 <= i < q0.len() ==> queue@[i] == q0[i],
                queue@.len() <= prevs.data@.len(),
                queue@.len() == count_some(prevs.data@),
                queue@.no_duplicates(),
                prevs.at(src) == Some(src),
                forall|i: int| 0 <= i < queue@.len() ==> {
                    let p = #[trigger] queue@[i];
                    &&& grid.in_bounds(p)
                    &&& prevs.at(p) is Some
                    &&& connected(g, bs, src, p)
                },
                forall|p: Pos| grid.in_bounds(p) && (#[trigger] prevs.at(p)) is Some ==> queue@.contains(p),
                forall|p: Pos| grid.in_bounds(p) && (#[trigger] p0.at(p)) is Some ==> prevs.at(p) is Some,
                forall|p: Pos|
                    grid.in_bounds(p) && (#[trigger] prevs.at(p)) is Some && p != src ==> {
                        let q = prevs.at(p).unwrap();
                        &&& grid.in_bounds(q)
                        &&& prevs.at(q) is Some
                        &&& depth.contains_key(q)
                        &&& depth.contains_key(p)
                        &&& depth[p] == depth[q] + 1
                        &&& adj(q, p)
                        &&& can_enter(g, bs, p)
                    },
                depth.contains_key(src),
                depth[src] == 0,
                depth[cur] == dcur,
                forall|i: int| 0 <= i < queue@.len() ==> depth.contains_key(#[trigger] queue@[i]),
                levels_sorted(depth, queue@),
                forall|j: int| 0 <= j < queue@.len() ==> depth[#[trigger] queue@[j]] <= dcur + 1,
                found ==> prevs.at(dest) is Some,
                found ==> depth.contains_key(dest),
                found ==> forall|w: Seq<Pos>| #[trigger] is_walk(g, bs, w) && w[0] == src && w.last() == dest ==> depth[dest] <= w.len() - 1,
                !found ==> forall|i: int, q: Pos|
                    #![trigger queue@[i], adj(queue@[i], q)]
                    0 <= i < head && adj(queue@[i], q) && can_enter(g, bs, q) ==> (prevs.at(q) is Some && depth.contains_key(q)
                        && depth[q] <= depth[queue@[i]] + 1),
                !found ==> forall|j: int|
                    0 <= j < k ==> {
                        let q = #[trigger] cur.step(crate::data::spec_dir(j));
                        can_enter(g, bs, q) ==> prevs.at(q) is Some && depth.contains_key(q) && depth[q] <= dcur + 1
                    },
                !found ==> prevs.at(dest) is None,
            decreases 4 - k,
        {
            let dir = crate::data::dir_from_index(k);
            let next = cur.add_dir(dir);
            proof {
                crate::reach::lemma_adj_step(cur, dir);
            }
            if *grid.get(next) == MapCell::Wall || *box_grid.get(next) || prevs.get(next).is_some() {
                proof {
                    if !found && can_enter(g, bs, next) {
                        assert(prevs.at(next) is Some);
                        assert(queue@.contains(next));
                        let i = choose|i: int| 0 <= i < queue@.len() && queue@[i] == next;
                        assert(depth[queue@[i]] <= dcur + 1);
                    }
                    assert forall|j: int|
                        0 <= j < k + 1 implies {
                            let q = #[trigger] cur.step(crate::data::spec_dir(j));
                            !found ==> (can_enter(g, bs, q) ==> prevs.at(q) is Some && depth.contains_key(q) && depth[q] <= dcur + 1)
                        } by {
                        if j == k {
                            assert(cur.step(crate::data::spec_dir(j)) == next);
                        }
                    }
                }
                k = k + 1;
                continue;
            }
            proof {
                lemma_connected_step(g, bs, src, cur, next);
                prevs.lemma_idx(next);
                lemma_count_some_set(prevs.data@, prevs.idx(next), cur);
                lemma_count_some_bound(prevs.data@.update(prevs.idx(next), Some(cur)));
            }
            let ghost pv = prevs;
            let ghost dv = depth;
            prevs.set(next, Some(cur));
            proof {
                if next != dest {
                    assert(prevs.at(dest) == pv.at(dest));
                }
                depth = depth.insert(next, depth[cur] + 1);
                assert(next != cur);
                assert forall|p: Pos|
                    grid.in_bounds(p) && (#[trigger] prevs.at(p)) is Some && p != src implies {
                        let q = prevs.at(p).unwrap();
                        &&& grid.in_bounds(q)
                        &&& prevs.at(q) is Some
                        &&& depth.contains_key(q)
                        &&& depth.contains_key(p)
                        &&& depth[p] == depth[q] + 1
                        &&& adj(q, p)
                        &&& can_enter(g, bs, p)
                    } by {
                    if p != next {
                        assert(prevs.at(p) == pv.at(p));
                        let q = pv.at(p).unwrap();
                        if q == next {
                            assert(pv.at(q) is Some);
                        }
                    }
                }
            }
            let ghost qv = queue@;
            queue.push(next);
            proof {
                assert(!qv.contains(next));
                assert(queue@[queue@.len() - 1] == next);
                assert forall|p: Pos| grid.in_bounds(p) && (#[trigger] prevs.at(p)) is Some implies queue@.contains(p) by {
                    if p != next {
                        assert(pv.at(p) is Some);
                        let i = choose|i: int| 0 <= i < qv.len() && qv[i] == p;
                        assert(queue@[i] == p);
                    }
                }
            }
            proof {
                assert forall|i: int| 0 <= i < queue@.len() implies depth.contains_key(#[trigger] queue@[i]) by {
                    if i < qv.len() {
                        assert(queue@[i] == qv[i]);
                    }
                }
                assert forall|i: int| 0 <= i < qv.len() implies #[trigger] queue@[i] != next && depth[queue@[i]] == dv[qv[i]] by {
                    assert(queue@[i] == qv[i]);
                    assert(pv.at(qv[i]) is Some);
                }
                lemma_levels_push(dv, qv, next, dcur + 1);
                assert(queue@ == qv.push(next));
                assert forall|j: int| 0 <= j < queue@.len() implies depth[#[trigger] queue@[j]] <= dcur + 1 by {
                    if j < qv.len() {
                        assert(dv[qv[j]] <= dcur + 1);
                    }
                }
                if !found {
                    assert forall|i: int, q: Pos|
                        #![trigger queue@[i], adj(queue@[i], q)]
                        0 <= i < head && adj(queue@[i], q) && can_enter(g, bs, q) implies (prevs.at(q) is Some && depth.contains_key(q)
                            && depth[q] <= depth[queue@[i]] + 1) by {
                        assert(queue@[i] == qv[i]);
                        assert(adj(qv[i], q));
                        assert(pv.at(q) is Some);
                        assert(q != next);
                    }
                    assert forall|j: int|
                        0 <= j < k + 1 implies {
                            let q = #[trigger] cur.step(crate::data::spec_dir(j));
                            can_enter(g, bs, q) ==> prevs.at(q) is Some && depth.contains_key(q) && depth[q] <= dcur + 1
                        } by {
                        let q = cur.step(crate::data::spec_dir(j));
                        if j < k && can_enter(g, bs, q) {
                            assert(pv.at(q) is Some);
                            assert(q != next);
                        }
                    }
                }
                if next == dest {
                    assert forall|w: Seq<Pos>| #[trigger] is_walk(g, bs, w) && w[0] == src && w.last() == dest implies depth[dest] <= w.len() - 1 by {
                        if w.len() - 1 <= dcur {
                            assert(qv[head as int] == cur);
                            lemma_bfs_prefix(g, bs, src, qv, head as int, dv, pv, w, w.len() - 1);
                        }
                    }
                }
            }
            if next == dest {
                found = true;
            }
            k = k + 1;
        }
        proof {
            if head + 1 < queue@.len() {
                assert(queue@[head as int] == cur);
                reveal(levels_sorted);
                assert(depth[queue@[head as int]] <= depth[queue@[head + 1]]);
            }
            if !found {
                assert forall|i: int, q: Pos|
                    #![trigger queue@[i], adj(queue@[i], q)]
                    0 <= i < head + 1 && adj(queue@[i], q) && can_enter(g, bs, q) implies (prevs.at(q) is Some && depth.contains_key(q)
                        && depth[q] <= depth[queue@[i]] + 1) by {
                    if i < head {
                        assert(queue@[i] == q0[i]);
                    } else {
                        assert(queue@[i] == cur);
                        crate::reach::lemma_adj_dir(cur, q);
                        let j: int = if q.r + 1 == cur.r { 0 } else if q.c == cur.c + 1 { 1 } else if q.r == cur.r + 1 { 2 } else { 3 };
                        assert(q == cur.step(crate::data::spec_dir(j)));
                    }
                }
            }
        }
        head = head + 1;
    }
    proof {
        if !found {
            let s = Set::new(|p: Pos| grid.in_bounds(p) && prevs.at(p) is Some);
            assert forall|p: Pos, q: Pos|
                #![trigger s.contains(p), adj(p, q)]
                s.contains(p) && adj(p, q) && can_enter(g, bs, q) implies s.contains(q) by {
                assert(queue@.contains(p));
                let i = choose|i: int| 0 <= i < queue@.len() && queue@[i] == p;
            }
            lemma_closed_contains(g, bs, s, src, dest);
        }
        assert(prevs.at(dest) is Some);
    }
    // walk back from `dest` to `src`
    let mut rev: Vec<Pos> = Vec::new();
    rev.push(dest);
    let mut cur = dest;
    proof {
        assert(connected(g, bs, src, dest));
        assert(g.in_bounds(dest));
    }
    while cur != src
        invariant
            g == grid@,
            bs == boxes@.to_set(),
            grid.wf(),
            prevs.wf(),
            prevs.same_dims(grid),
            grid.in_bounds(cur),
            prevs.at(cur) is Some,
            prevs.at(src) == Some(src),
            depth.contains_key(cur),
            forall|p: Pos|
                grid.in_bounds(p) && (#[trigger] prevs.at(p)) is Some && p != src ==> {
                    let q = prevs.at(p).unwrap();
                    &&& grid.in_bounds(q)
                    &&& prevs.at(q) is Some
                    &&& depth.contains_key(q)
                    &&& depth.contains_key(p)
                    &&& depth[p] == depth[q] + 1
                    &&& adj(q, p)
                    &&& can_enter(g, bs, p)
                },
            rev@.len() > 0,
            rev@[0] == dest,
            rev@.last() == cur,
            depth.contains_key(dest),
            depth[src] == 0,
            rev@.len() - 1 + depth[cur] == depth[dest],
            forall|i: int| 0 <= i < rev@.len() ==> grid.in_bounds(#[trigger] rev@[i]),
            forall|i: int| 0 <= i < rev@.len() - 1 ==> #[trigger] adj(rev@[i + 1], rev@[i]) && can_enter(g, bs, rev@[i]),
        decreases depth[cur],
    {
        let prev = prevs.get(cur).unwrap();
        proof {
            assert(grid.in_bounds(cur) && prevs.at(cur) is Some && cur != src);
            assert(adj(prev, cur));
            assert(depth[cur] == depth[prev] + 1);
        }
        let ghost r0 = rev@;
        rev.push(prev);
        proof {
            assert forall|i: int| 0 <= i < rev@.len() - 1 implies #[trigger] adj(rev@[i + 1], rev@[i]) && can_enter(g, bs, rev@[i]) by {
                if i < r0.len() - 1 {
                    assert(rev@[i] == r0[i] && rev@[i + 1] == r0[i + 1]);
                } else {
                    assert(rev@[i] == cur);
                }
            }
        }
        cur = prev;
    }
    let ghost w = rev@.reverse();
    proof {
        assert forall|i: int| 0 <= i < w.len() - 1 implies #[trigger] adj(w[i], w[i + 1]) by {
            let j = rev@.len() - 2 - i;
            assert(adj(rev@[j + 1], rev@[j]));
        }
        assert forall|i: int| 1 <= i < w.len() implies can_enter(g, bs, #[trigger] w[i]) by {
            let j = rev@.len() - 1 - i;
            assert(0 <= j < rev@.len() - 1);
            assert(adj(rev@[j + 1], rev@[j]));
            assert(w[i] == rev@[j]);
        }
        assert(is_walk(g, bs, w));
        assert(w[0] == src);
        assert(w.last() == dest);
    }
    walk_steps(grid, &rev, Ghost(bs), Ghost(src), Ghost(dest))
}

/// The distances of the cells of a queue never decrease along it.
#[verifier::opaque]
spec fn levels_sorted(depth: Map<Pos, nat>, q: Seq<Pos>) -> bool {
    forall|i: int, j: int| 0 <= i <= j < q.len() ==> depth[#[trigger] q[i]] <= depth[#[trigger] q[j]]
}

/// Appending a new cell at a distance no smaller than any in the queue keeps it sorted.
proof fn lemma_levels_push(depth: Map<Pos, nat>, q: Seq<Pos>, next: Pos, d: nat)
    requires
        levels_sorted(depth, q),
        !q.contains(next),
        forall|j: int| 0 <= j < q.len() ==> depth[#[trigger] q[j]] <= d,
    ensures
        levels_sorted(depth.insert(next, d), q.push(next)),
{
    reveal(levels_sorted);
    let d2 = depth.insert(next, d);
    let q2 = q.push(next);
    assert forall|i: int, j: int| 0 <= i <= j < q2.len() implies d2[#[trigger] q2[i]] <= d2[#[trigger] q2[j]] by {
        if i < q.len() {
            assert(q2[i] == q[i]);
            assert(q[i] != next);
        }
        if j < q.len() {
            assert(q2[j] == q[j]);
            assert(q[j] != next);
            assert(depth[q[i]] <= depth[q[j]]);
        }
    }
}

/// In a breadth-first search that has expanded the first `head` cells of its queue, the
/// cell `t` steps along a walk from the start has been found, `t` or fewer steps away,
/// while `t` is at most the distance of the cell at `head`.
proof fn lemma_bfs_prefix(
    g: Grid<MapCell>,
    bs: Set<Pos>,
    src: Pos,
    queue: Seq<Pos>,
    head: int,
    depth: Map<Pos, nat>,
    prevs: Vec2d<Option<Pos>>,
    w: Seq<Pos>,
    t: int,
)
    requires
        0 <= head < queue.len(),
        is_walk(g, bs, w),
        w[0] == src,
        0 <= t < w.len(),
        t <= depth[queue[head]],
        g.in_bounds(src),
        prevs.at(src) is Some,
        depth.contains_key(src),
        depth[src] == 0,
        forall|i: int| 0 <= i < queue.len() ==> depth.contains_key(#[trigger] queue[i]),
        levels_sorted(depth, queue),
        forall|p: Pos| g.in_bounds(p) && (#[trigger] prevs.at(p)) is Some ==> queue.contains(p),
        forall|i: int, q: Pos|
            #![trigger queue[i], adj(queue[i], q)]
            0 <= i < head && adj(queue[i], q) && can_enter(g, bs, q) ==> prevs.at(q) is Some && depth.contains_key(q) && depth[q]
                <= depth[queue[i]] + 1,
    ensures
        prevs.at(w[t]) is Some,
        depth.contains_key(w[t]),
        depth[w[t]] <= t,
    decreases t,
{
    if t > 0 {
        lemma_bfs_prefix(g, bs, src, queue, head, depth, prevs, w, t - 1);
        let a = w[t - 1];
        assert(adj(w[t - 1], w[(t - 1) + 1]));
        if t - 1 > 0 {
            assert(can_enter(g, bs, w[t - 1]));
        }
        assert(g.in_bounds(a));
        assert(queue.contains(a));
        let i = choose|i: int| 0 <= i < queue.len() && queue[i] == a;
        if i >= head {
            reveal(levels_sorted);
            assert(depth[queue[head]] <= depth[queue[i]]);
        }
        assert(can_enter(g, bs, w[t]));
        assert(adj(queue[i], w[t]));
    }
}

/// The steps along a walk given backwards in `rev`.
fn walk_steps(grid: &Vec2d<MapCell>, rev: &Vec<Pos>, Ghost(bs): Ghost<Set<Pos>>, Ghost(src): Ghost<Pos>, Ghost(dest): Ghost<Pos>) -> (moves: Moves)
    requires
        grid.wf(),
        is_walk(grid@, bs, rev@.reverse()),
        rev@.reverse()[0] == src,
        rev@.reverse().last() == dest,
        player_enclosed(grid@, bs, src),
    ensures
        forall|remover: Option<Pos>|
            #[trigger] replay(grid@, remover, src, bs, moves@) == Some((dest, bs)),
        forall|i: int| 0 <= i < moves@.len() ==> !(#[trigger] moves@[i]).is_push,
        moves@.len() == rev@.len() - 1,
{
    let ghost g = grid@;
    let ghost w = rev@.reverse();
    let mut moves = Moves::default();
    let n = rev.len();
    let mut j: usize = n - 1;
    while j > 0
        invariant
            n == rev@.len(),
            n == w.len(),
            w == rev@.reverse(),
            is_walk(g, bs, w),
            g == grid@,
            grid.wf(),
            player_enclosed(g, bs, src),
            w[0] == src,
            j < n,
            moves@.len() == n - 1 - j,
            walk_moves(w.take(n - j), moves@),
        decreases j,
    {
        let a = rev[j];
        let b = rev[j - 1];
        let ghost i = n - 1 - j;
        proof {
            assert(w[i] == a && w[i + 1] == b);
            assert(adj(w[i], w[i + 1]));
            crate::reach::lemma_connected_walk_prefix(g, bs, w, i);
            assert(connected(g, bs, src, a));
            assert(a.is_inner());
            crate::reach::lemma_adj_dir(a, b);
        }
        let d = a.dir_to(b);
        let ghost m0 = moves@;
        moves.add(Move::new(d, false));
        proof {
            assert forall|k: int| 0 <= k < moves@.len() implies !(#[trigger] moves@[k]).is_push && w.take(n - j + 1)[k].step(moves@[k].dir) == w.take(n - j + 1)[k + 1] by {
                if k < m0.len() {
                    assert(moves@[k] == m0[k]);
                    assert(w.take(n - j)[k] == w[k]);
                    assert(w.take(n - j)[k + 1] == w[k + 1]);
                }
            }
        }
        j = j - 1;
    }
    proof {
        assert(w.take(n as int) =~= w);
        assert forall|i: int| 0 <= i < w.len() implies g.in_bounds(#[trigger] w[i]) && !on_border(g, w[i]) by {
            crate::reach::lemma_connected_walk_prefix(g, bs, w, i);
        }
        assert forall|remover: Option<Pos>|
            #[trigger] replay(g, remover, src, bs, moves@) == Some((dest, bs)) by {
            lemma_replay_walk(g, remover, bs, w, moves@, moves@.len() as int);
            assert(moves@.take(moves@.len() as int) =~= moves@);
        }
    }
    proof {
        assert forall|i: int| 0 <= i < moves@.len() implies !(#[trigger] moves@[i]).is_push by {
            assert(w.take(n as int)[i] == w[i]);
        }
    }
    moves
}

/// The number of cells that are `Some`.
pub open spec fn count_some<T>(s: Seq<Option<T>>) -> nat
    decreases s.len(),
{
    if s.len() == 0 {
        0
    } else {
        count_some(s.drop_last()) + if s.last() is Some {
            1nat
        } else {
            0nat
        }
    }
}

proof fn lemma_count_some_none<T>(s: Seq<Option<T>>)
    requires
        forall|i: int| 0 <= i < s.len() ==> s[i] is None,
    ensures
        count_some(s) == 0,
    decreases s.len(),
{
    if s.len() > 0 {
        lemma_count_some_none(s.drop_last());
    }
}

proof fn lemma_count_some_bound<T>(s: Seq<Option<T>>)
    ensures
        count_some(s) <= s.len(),
    decreases s.len(),
{
    if s.len() > 0 {
        lemma_count_some_bound(s.drop_last());
    }
}

proof fn lemma_count_some_set<T>(s: Seq<Option<T>>, i: int, v: T)
    requires
        0 <= i < s.len(),
        s[i] is None,
    ensures
        count_some(s.update(i, Some(v))) == count_some(s) + 1,
    decreases s.len(),
{
    let t = s.update(i, Some(v));
    if i == s.len() - 1 {
        assert(t.drop_last() =~= s.drop_last());
    } else {
        assert(t.drop_last() =~= s.drop_last().update(i, Some(v)));
        lemma_count_some_set(s.drop_last(), i, v);
    }
}

/// The boxes after the box at `y` is pushed onto `z`; a box pushed onto the remover is
/// taken away.
pub open spec fn pushed_boxes(remover: Option<Pos>, boxes: Set<Pos>, y: Pos, z: Pos) -> Set<Pos> {
    if remover == Some(z) {
        boxes.remove(y)
    } else {
        boxes.remove(y).insert(z)
    }
}

/// `to` follows from `from` by one push: the player walks around the boxes to `x`,
/// pushes the box at `y` (next to `x` in direction `d`) onto the free cell `z` behind it,
/// and the player of `to` stands somewhere the player can walk to from `y`.
pub open spec fn push_at(g: Grid<MapCell>, remover: Option<Pos>, from: StateView, to: StateView, x: Pos, d: Dir) -> bool {
    let boxes = from.1.to_set();
    let y = x.step(d);
    let z = y.step(d);
    &&& x.is_inner()
    &&& y.is_inner()
    &&& connected(g, boxes, from.0, x)
    &&& boxes.contains(y)
    &&& g.in_bounds(y)
    &&& g.at(y) != MapCell::Wall
    &&& g.in_bounds(z)
    &&& g.at(z) != MapCell::Wall
    &&& !boxes.contains(z)
    &&& to.1.to_set() == pushed_boxes(remover, boxes, y, z)
    &&& connected(g, to.1.to_set(), y, to.0)
}

/// From `from`, the player can walk around the boxes to `x` and push the box next to it in
/// direction `d` onto the free cell behind that box.
pub open spec fn can_push(g: Grid<MapCell>, from: StateView, x: Pos, d: Dir) -> bool {
    let boxes = from.1.to_set();
    let y = x.step(d);
    let z = y.step(d);
    &&& x.is_inner()
    &&& y.is_inner()
    &&& connected(g, boxes, from.0, x)
    &&& boxes.contains(y)
    &&& g.in_bounds(y)
    &&& g.at(y) != MapCell::Wall
    &&& g.in_bounds(z)
    &&& g.at(z) != MapCell::Wall
    &&& !boxes.contains(z)
}

/// `to` follows from `from` by one push.
pub open spec fn push_succ(g: Grid<MapCell>, remover: Option<Pos>, from: StateView, to: StateView) -> bool {
    exists|x: Pos, d: Dir| #[trigger] push_at(g, remover, from, to, x, d)
}

/// A state the search can be in: the player on a free cell that is not a box, the boxes
/// sorted, on the grid, not on walls and not on the remover.
pub open spec fn search_state(g: Grid<MapCell>, s: StateView) -> bool {
    &&& g.in_bounds(s.0)
    &&& g.at(s.0) != MapCell::Wall
    &&& !s.1.contains(s.0)
    &&& crate::state::sorted(s.1)
    &&& forall|i: int|
        0 <= i < s.1.len() ==> g.in_bounds(#[trigger] s.1[i]) && g.at(s.1[i]) != MapCell::Wall && g.at(
            s.1[i],
        ) != MapCell::Remover
}

/// On an enclosed grid every cell the player can walk to from a free cell is inside.
pub proof fn lemma_enclosed_player(g: Grid<MapCell>, b: Set<Pos>, p: Pos)
    requires
        crate::solver::preprocessing::enclosed(g),
        g.in_bounds(p),
        g.at(p) != MapCell::Wall,
    ensures
        player_enclosed(g, b, p),
{
    assert forall|q: Pos| #[trigger] connected(g, b, p, q) implies g.in_bounds(q) && !on_border(g, q) by {
        let w = choose|w: Seq<Pos>| #[trigger] is_walk(g, b, w) && w[0] == p && w.last() == q;
        if w.len() > 1 {
            assert(can_enter(g, b, w[w.len() - 1]));
        }
    }
}

/// The moves from one state of the search to the next: steps of the player from
/// `player` to the box that moved, and the push; also the position of the player after
/// the push.
pub fn moves_between_states(
    grid: &Vec2d<MapCell>,
    remover: Option<Pos>,
    player: Pos,
    old: &State,
    new: &State,
) -> (r: (Moves, Pos))
    requires
        grid.wf(),
        crate::solver::preprocessing::enclosed(grid@),
        forall|i: int| 0 <= i < old.boxes@.len() ==> grid.in_bounds(#[trigger] old.boxes@[i]),
        push_succ(grid@, remover, old@, new@),
        grid.in_bounds(player),
        grid@.at(player) != MapCell::Wall,
        connected(grid@, old.boxes@.to_set(), player, old.player_pos),
    ensures
        replay(grid@, remover, player, old.boxes@.to_set(), r.0@) == Some((r.1, new.boxes@.to_set())),
        connected(grid@, new.boxes@.to_set(), r.1, new.player_pos),
        grid.in_bounds(r.1),
        grid@.at(r.1) != MapCell::Wall,
        !new.boxes@.to_set().contains(r.1),
        forall|x: Pos, d: Dir, w: Seq<Pos>|
            #![trigger push_at(grid@, remover, old@, new@, x, d), is_walk(grid@, old.boxes@.to_set(), w)]
            push_at(grid@, remover, old@, new@, x, d) && is_walk(grid@, old.boxes@.to_set(), w) && w[0] == player && w.last() == x
                ==> r.0@.len() <= w.len(),
        r.0@.len() >= 1,
        r.0@.last().is_push,
        forall|i: int| 0 <= i < r.0@.len() - 1 ==> !(#[trigger] r.0@[i]).is_push,
        old.boxes@.to_set().contains(r.1),
        !new.boxes@.to_set().contains(r.1),
        forall|x: Pos, d: Dir| #[trigger] push_at(grid@, remover, old@, new@, x, d) ==> r.1 == x.step(d),
{
    let ghost g = grid@;
    let ghost ob = old.boxes@.to_set();
    let ghost nb = new.boxes@.to_set();
    let ghost (x, d) = choose|x: Pos, d: Dir| #[trigger] push_at(g, remover, old@, new@, x, d);
    let ghost y = x.step(d);
    let ghost z = y.step(d);
    // the box that moved
    let mut k: usize = 0;
    while k < old.boxes.len() && crate::state::contains_pos(&new.boxes, old.boxes[k])
        invariant
            k <= old.boxes@.len(),
            forall|j: int| 0 <= j < k ==> new.boxes@.contains(#[trigger] old.boxes@[j]),
        decreases old.boxes@.len() - k,
    {
        k = k + 1;
    }
    proof {
        assert(ob.contains(y) && !nb.contains(y));
        if k == old.boxes@.len() {
            assert(old.boxes@.contains(y));
            let j = choose|j: int| 0 <= j < old.boxes@.len() && old.boxes@[j] == y;
            assert(new.boxes@.contains(old.boxes@[j]));
            assert(nb.contains(y));
        }
        let ok = old.boxes@[k as int];
        assert(ob.contains(ok) && !new.boxes@.contains(ok));
        assert(!nb.contains(ok));
        assert(ok == y);
    }
    let old_box_pos = old.boxes[k];
    // where it went
    let mut m: usize = 0;
    while m < new.boxes.len() && crate::state::contains_pos(&old.boxes, new.boxes[m])
        invariant
            m <= new.boxes@.len(),
            forall|j: int| 0 <= j < m ==> old.boxes@.contains(#[trigger] new.boxes@[j]),
        decreases new.boxes@.len() - m,
    {
        m = m + 1;
    }
    let new_box_pos = if m < new.boxes.len() {
        proof {
            let nk = new.boxes@[m as int];
            assert(nb.contains(nk) && !old.boxes@.contains(nk));
            assert(!ob.contains(nk));
            assert(nk == z);
        }
        new.boxes[m]
    } else {
        proof {
            if remover != Some(z) {
                assert(nb.contains(z));
                assert(new.boxes@.contains(z));
                let j = choose|j: int| 0 <= j < new.boxes@.len() && new.boxes@[j] == z;
                assert(old.boxes@.contains(new.boxes@[j]));
                assert(ob.contains(z));
            }
        }
        remover.unwrap()
    };
    assert(new_box_pos == z);
    proof {
        assert(old_box_pos.adjacent(new_box_pos)) by {
            assert(old_box_pos.step(d) == new_box_pos);
        }
    }
    let push_dir = old_box_pos.dir_to(new_box_pos);
    assert(push_dir == d);
    let player_before_push = old_box_pos.sub_dir(push_dir);
    proof {
        crate::data::lemma_step_inverse(x, d);
        assert(player_before_push == x);
        lemma_enclosed_player(g, ob, player);
        crate::reach::lemma_connected_trans(g, ob, player, old.player_pos, x);
    }
    let mut moves = player_steps(grid, &old.boxes, player, player_before_push);
    let ghost steps = moves@;
    moves.add(Move::new(push_dir, true));
    proof {
        assert(replay(g, remover, player, ob, steps) == Some((x, ob)));
        assert(moves@.drop_last() =~= steps);
        assert(!crate::solver::preprocessing::on_border(g, x)) by {
            assert(connected(g, ob, player, x));
        }
        assert(step_on(g, x, d) == Some(y));
        assert(!crate::solver::preprocessing::on_border(g, y)) by {
            assert(g.at(y) != MapCell::Wall);
        }
        assert(step_on(g, y, d) == Some(z));
        assert(replay(g, remover, player, ob, moves@) == apply_move(g, remover, x, ob, Move { dir: d, is_push: true }));
        assert(pushed_boxes(remover, ob, y, z) == nb);
        assert(!nb.contains(y));
        assert forall|i: int| 0 <= i < moves@.len() - 1 implies !(#[trigger] moves@[i]).is_push by {
            assert(moves@[i] == steps[i]);
        }
        assert forall|x2: Pos, d2: Dir| #[trigger] push_at(g, remover, old@, new@, x2, d2) implies old_box_pos == x2.step(d2) by {
            lemma_same_push(g, remover, old@, new@, x, d, x2, d2);
        }
        assert forall|x2: Pos, d2: Dir, w: Seq<Pos>|
            #![trigger push_at(g, remover, old@, new@, x2, d2), is_walk(g, ob, w)]
            push_at(g, remover, old@, new@, x2, d2) && is_walk(g, ob, w) && w[0] == player && w.last() == x2 implies moves@.len() <= w.len() by {
            lemma_same_push(g, remover, old@, new@, x, d, x2, d2);
        }
    }
    (moves, old_box_pos)
}

/// Two pushes that lead from one state to the same next state are the same push.
pub(crate) proof fn lemma_same_push(g: Grid<MapCell>, remover: Option<Pos>, from: (Pos, Seq<Pos>), to: (Pos, Seq<Pos>), x: Pos, d: Dir, x2: Pos, d2: Dir)
    requires
        push_at(g, remover, from, to, x, d),
        push_at(g, remover, from, to, x2, d2),
    ensures
        x2 == x,
        d2 == d,
{
    let ob = from.1.to_set();
    let nb = to.1.to_set();
    let y = x.step(d);
    let z = y.step(d);
    let y2 = x2.step(d2);
    let z2 = y2.step(d2);
    assert(!nb.contains(y));
    assert(!nb.contains(y2));
    if y2 != y {
        assert(nb.contains(y2));
    }
    assert(y2 == y);
    if remover == Some(z) {
        if z2 != z {
            assert(nb.contains(z2));
        }
    } else {
        assert(nb.contains(z));
        if z2 != z {
            assert(remover != Some(z2));
        }
    }
    assert(z2 == z);
    assert(d2 == d);
    crate::data::lemma_step_inverse(x, d);
    crate::data::lemma_step_inverse(x2, d2);
}

/// `seg` takes the player from `player` to the box that moves from `from` to `to` by a
/// shortest walk, then pushes it.
pub open spec fn shortest_segment(g: Grid<MapCell>, rem: Option<Pos>, player: Pos, from: StateView, to: StateView, seg: Seq<Move>) -> bool {
    &&& seg.len() >= 1
    &&& seg.last().is_push
    &&& forall|i: int| 0 <= i < seg.len() - 1 ==> !(#[trigger] seg[i]).is_push
    &&& forall|x: Pos, d: Dir, w: Seq<Pos>|
        #![trigger push_at(g, rem, from, to, x, d), is_walk(g, from.1.to_set(), w)]
        push_at(g, rem, from, to, x, d) && is_walk(g, from.1.to_set(), w) && w[0] == player && w.last() == x ==> seg.len() <= w.len()
}

/// The moves between the cuts `i` and `i + 1` are a shortest walk to the box that moves
/// from state `i` to state `i + 1`, then its push.
pub open spec fn segment_at(
    g: Grid<MapCell>,
    rem: Option<Pos>,
    player: Pos,
    b0: Set<Pos>,
    states: Seq<&State>,
    moves: Seq<Move>,
    cuts: Seq<int>,
    i: int,
) -> bool {
    &&& 0 <= cuts[i] <= cuts[i + 1] <= moves.len()
    &&& shortest_segment(
        g,
        rem,
        replay(g, rem, player, b0, moves.take(cuts[i])).unwrap().0,
        states[i]@,
        states[i + 1]@,
        moves.subrange(cuts[i], cuts[i + 1]),
    )
}

/// The moves that lead through a chain of states of the search, each one push after the
/// previous one, starting with the player at `initial_player`.
pub fn reconstruct_moves(
    grid: &Vec2d<MapCell>,
    remover: Option<Pos>,
    initial_player: Pos,
    states: &Vec<&State>,
) -> (moves: Moves)
    requires
        grid.wf(),
        crate::solver::preprocessing::enclosed(grid@),
        states@.len() > 0,
        forall|i: int, j: int| 0 <= i < states@.len() && 0 <= j < states@[i].boxes@.len() ==> grid.in_bounds(#[trigger] states@[i].boxes@[j]),
        forall|i: int| 0 <= i < states@.len() - 1 ==> #[trigger] push_succ(grid@, remover, states@[i]@, states@[i + 1]@),
        grid.in_bounds(initial_player),
        grid@.at(initial_player) != MapCell::Wall,
        connected(grid@, states@[0].boxes@.to_set(), initial_player, states@[0].player_pos),
    ensures
        replay(grid@, remover, initial_player, states@[0].boxes@.to_set(), moves@) matches Some((_, b))
            && b == states@[states@.len() - 1].boxes@.to_set(),
        exists|cuts: Seq<int>|
            cuts.len() == states@.len() && cuts[0] == 0 && cuts[cuts.len() - 1] == moves@.len() && forall|i: int|
                0 <= i < states@.len() - 1 ==> #[trigger] segment_at(
                    grid@,
                    remover,
                    initial_player,
                    states@[0].boxes@.to_set(),
                    states@,
                    moves@,
                    cuts,
                    i,
                ),
{
    let ghost g = grid@;
    let ghost b0 = states@[0].boxes@.to_set();
    let ghost mut cuts: Seq<int> = seq![0int];
    let mut moves = Moves::default();
    let mut player_now = initial_player;
    let mut i: usize = 0;
    proof {
        assert(replay(g, remover, initial_player, b0, moves@) == Some((initial_player, b0)));
    }
    while i < states.len() - 1
        invariant
            g == grid@,
            b0 == states@[0].boxes@.to_set(),
            grid.wf(),
            crate::solver::preprocessing::enclosed(g),
            forall|i: int, j: int| 0 <= i < states@.len() && 0 <= j < states@[i].boxes@.len() ==> grid.in_bounds(#[trigger] states@[i].boxes@[j]),
            forall|j: int| 0 <= j < states@.len() - 1 ==> #[trigger] push_succ(g, remover, states@[j]@, states@[j + 1]@),
            i < states@.len(),
            grid.in_bounds(player_now),
            g.at(player_now) != MapCell::Wall,
            connected(g, states@[i as int].boxes@.to_set(), player_now, states@[i as int].player_pos),
            replay(g, remover, initial_player, b0, moves@) == Some((player_now, states@[i as int].boxes@.to_set())),
            cuts.len() == i + 1,
            cuts[0] == 0,
            cuts[i as int] == moves@.len(),
            forall|j: int| 0 <= j < i ==> #[trigger] segment_at(g, remover, initial_player, b0, states@, moves@, cuts, j),
        decreases states@.len() - i,
    {
        let cur = states[i];
        let next = states[i + 1];
        proof {
            assert(push_succ(g, remover, states@[i as int]@, states@[i + 1]@));
        }
        let ghost before = moves@;
        let (new_moves, new_player) = moves_between_states(grid, remover, player_now, cur, next);
        moves.extend(&new_moves);
        proof {
            crate::rules::lemma_replay_concat(g, remover, initial_player, b0, before, new_moves@);
            let c1 = cuts.push(moves@.len() as int);
            assert forall|j: int| 0 <= j < i + 1 implies #[trigger] segment_at(g, remover, initial_player, b0, states@, moves@, c1, j) by {
                assert(c1[j] == cuts[j]);
                if j < i {
                    assert(c1[j + 1] == cuts[j + 1]);
                    assert(segment_at(g, remover, initial_player, b0, states@, before, cuts, j));
                    assert(moves@.take(cuts[j]) =~= before.take(cuts[j]));
                    assert(moves@.subrange(cuts[j], cuts[j + 1]) =~= before.subrange(cuts[j], cuts[j + 1]));
                } else {
                    assert(moves@.take(cuts[j]) =~= before);
                    assert(moves@.subrange(cuts[j], c1[j + 1]) =~= new_moves@);
                }
            }
            cuts = c1;
        }
        player_now = new_player;
        i = i + 1;
    }
    moves
}

/// `order` decreases along the links of `pm` until a state that links to itself.
pub open spec fn links_descend(pm: Map<StateView, StateView>, order: spec_fn(StateView) -> nat) -> bool {
    forall|k: StateView|
        #[trigger] pm.contains_key(k) ==> pm[k] == k || (pm.contains_key(pm[k]) && order(pm[k]) < order(k))
}

/// Following the links of `pm` from `s` reaches a state that links to itself within `n`
/// steps.
pub open spec fn chain_ends(pm: Map<StateView, StateView>, s: StateView, n: nat) -> bool
    decreases n,
{
    pm.contains_key(s) && (pm[s] == s || (n > 0 && chain_ends(pm, pm[s], (n - 1) as nat)))
}

/// Where an order decreases along every link, the links from any key end at a state that
/// links to itself.
pub proof fn lemma_descend_chain(pm: Map<StateView, StateView>, order: spec_fn(StateView) -> nat, s: StateView)
    requires
        links_descend(pm, order),
        pm.contains_key(s),
    ensures
        chain_ends(pm, s, order(s)),
    decreases order(s),
{
    if pm[s] != s {
        lemma_descend_chain(pm, order, pm[s]);
        lemma_chain_ends_mono(pm, pm[s], order(pm[s]), (order(s) - 1) as nat);
    }
}

/// A chain that ends within `n` steps ends within any larger number.
proof fn lemma_chain_ends_mono(pm: Map<StateView, StateView>, s: StateView, n: nat, m: nat)
    requires
        chain_ends(pm, s, n),
        n <= m,
    ensures
        chain_ends(pm, s, m),
    decreases n,
{
    if pm[s] != s {
        lemma_chain_ends_mono(pm, pm[s], (n - 1) as nat, (m - 1) as nat);
    }
}

/// Follows the links of the map of previous states from `final_state` back to the state
/// that links to itself; returns the states in the order from that one to `final_state`.
pub fn backtrack_prevs<'a>(prevs: &FnvHashMap<&'a State, &'a State>, final_state: &'a State) -> (chain: Vec<&'a State>)
    requires
        exists|n: nat| chain_ends(prev_links(*prevs), final_state@, n),
    ensures
        chain@.len() > 0,
        chain@[chain@.len() - 1]@ == final_state@,
        prev_links(*prevs)[chain@[0]@] == chain@[0]@,
        forall|i: int| 0 <= i < chain@.len() ==> prev_links(*prevs).contains_key((#[trigger] chain@[i])@),
        forall|i: int|
            0 <= i < chain@.len() - 1 ==> prev_links(*prevs)[(#[trigger] chain@[i + 1])@] == chain@[i]@
                && chain@[i + 1]@ != chain@[i]@,
{
    let ghost pm = prev_links(*prevs);
    let ghost mut steps: nat = choose|n: nat| chain_ends(pm, final_state@, n);
    let mut rev: Vec<&'a State> = Vec::new();
    rev.push(final_state);
    let mut cur = final_state;
    loop
        invariant
            pm == prev_links(*prevs),
            chain_ends(pm, cur@, steps),
            pm.contains_key(cur@),
            rev@.len() > 0,
            rev@[0]@ == final_state@,
            rev@[rev@.len() - 1]@ == cur@,
            forall|i: int| 0 <= i < rev@.len() ==> pm.contains_key((#[trigger] rev@[i])@),
            forall|i: int| 0 <= i < rev@.len() - 1 ==> pm[(#[trigger] rev@[i])@] == rev@[i + 1]@ && rev@[i]@ != rev@[i + 1]@,
        ensures
            pm[cur@] == cur@,
            rev@[rev@.len() - 1]@ == cur@,
        decreases steps,
    {
        let prev = prevs_get(prevs, cur).unwrap();
        if prev.same(cur) {
            break;
        }
        proof {
            assert(prev@ == pm[cur@]);
            assert(pm[cur@] != cur@);
            assert(chain_ends(pm, pm[cur@], (steps - 1) as nat));
            steps = (steps - 1) as nat;
            assert(chain_ends(pm, prev@, steps));
            assert(pm.contains_key(prev@));
        }
        let ghost r0 = rev@;
        rev.push(prev);
        proof {
            assert forall|i: int| 0 <= i < rev@.len() - 1 implies pm[(#[trigger] rev@[i])@] == rev@[i + 1]@ && rev@[i]@ != rev@[i + 1]@ by {
                if i < r0.len() - 1 {
                    assert(rev@[i] == r0[i] && rev@[i + 1] == r0[i + 1]);
                }
            }
        }
        cur = prev;
    }
    let n = rev.len();
    let mut chain: Vec<&'a State> = Vec::new();
    let mut j: usize = n;
    while j > 0
        invariant
            j <= n,
            n == rev@.len(),
            chain@.len() == n - j,
            forall|i: int| 0 <= i < chain@.len() ==> (#[trigger] chain@[i]) == rev@[n - 1 - i],
        decreases j,
    {
        chain.push(rev[j - 1]);
        j = j - 1;
    }
    proof {
        assert forall|i: int|
            0 <= i < chain@.len() - 1 implies prev_links(*prevs)[(#[trigger] chain@[i + 1])@] == chain@[i]@
                && chain@[i + 1]@ != chain@[i]@ by {
            let k = n - 2 - i;
            assert(chain@[i + 1] == rev@[k] && chain@[i] == rev@[k + 1]);
        }
        assert forall|i: int| 0 <= i < chain@.len() implies prev_links(*prevs).contains_key((#[trigger] chain@[i])@) by {
            assert(chain@[i] == rev@[n - 1 - i]);
        }
    }
    chain
}

} // verus!
