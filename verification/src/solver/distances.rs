//! Push distances of a lone box, which the heuristics of the search are built from.
use vstd::prelude::*;

use crate::data::{dir_from_index, spec_dir, Dir, MapCell, Pos};
use crate::solver::preprocessing::{
    can_push_lone, count_true, enclosed, lemma_count_false_all, lemma_count_true_bound, lemma_count_true_set,
    one_box_push_dirs,
};
use crate::vec2d::{Grid, Vec2d};

verus! {

/// A node of the pushes of a lone box: where the box is and the direction in which the
/// player faces it (the player stands one cell behind the box in that direction).
pub type PushNode = (Pos, Dir);

/// One push of a lone box: the player walks around the box from behind side `from.1`
/// to behind side `to.1` and pushes the box one cell in that direction.
pub open spec fn lone_push(g: Grid<MapCell>, from: PushNode, to: PushNode) -> bool {
    &&& can_push_lone(g, from.0, from.0.step(from.1.spec_inverse()), to.1)
    &&& to.0 == from.0.step(to.1)
}

/// Consecutive nodes are one push apart.
pub open spec fn push_seq(g: Grid<MapCell>, s: Seq<PushNode>) -> bool {
    &&& s.len() > 0
    &&& forall|i: int| 0 <= i < s.len() - 1 ==> #[trigger] lone_push(g, s[i], s[i + 1])
}

/// Node `n` is reached from node `first` with exactly `k` pushes.
pub open spec fn reaches_node(g: Grid<MapCell>, first: PushNode, n: PushNode, k: nat) -> bool {
    exists|s: Seq<PushNode>| #[trigger] push_seq(g, s) && s.len() == k + 1 && s[0] == first && s.last() == n
}

/// A lone box at `start`, with the player behind it facing direction `dir`, can be
/// brought to `dest` with exactly `k` pushes.
pub open spec fn pushes_to(g: Grid<MapCell>, start: Pos, dir: Dir, dest: Pos, k: nat) -> bool {
    exists|side: Dir| #[trigger] reaches_node(g, (start, dir), (dest, side), k)
}

pub(crate) proof fn lemma_reaches_start(g: Grid<MapCell>, first: PushNode)
    ensures
        reaches_node(g, first, first, 0),
{
    let s = seq![first];
    assert(push_seq(g, s));
}

pub(crate) proof fn lemma_reaches_step(g: Grid<MapCell>, first: PushNode, n: PushNode, m: PushNode, k: nat)
    requires
        reaches_node(g, first, n, k),
        lone_push(g, n, m),
    ensures
        reaches_node(g, first, m, k + 1),
{
    let s = choose|s: Seq<PushNode>| #[trigger] push_seq(g, s) && s.len() == k + 1 && s[0] == first && s.last() == n;
    let t = s.push(m);
    assert forall|i: int| 0 <= i < t.len() - 1 implies #[trigger] lone_push(g, t[i], t[i + 1]) by {
        if i < s.len() - 1 {
            assert(lone_push(g, s[i], s[i + 1]));
        }
    }
    assert(push_seq(g, t));
}

/// The player can stand behind a lone box at `p` facing direction `d`.
pub open spec fn side_ok(g: Grid<MapCell>, p: Pos, d: Dir) -> bool {
    &&& g.in_bounds(p)
    &&& g.at(p) != MapCell::Wall
    &&& g.at(p.step(d.spec_inverse())) != MapCell::Wall
}

/// For every start cell and side: the number of pushes a lone box needs to reach each
/// cell, `None` where no pushes were found.
#[derive(Debug)]
pub struct PushDists {
    pub dists: Vec<Vec2d<Option<u32>>>,
    pub rows: u8,
    pub cols: u8,
}

impl PushDists {
    pub open spec fn slot(&self, start: Pos, dir: Dir) -> int {
        (start.r as int * self.cols as int + start.c as int) * 4 + dir.spec_index() as int
    }

    /// The recorded distance from `start` with the player facing `dir` to `dest`.
    pub open spec fn dist(&self, start: Pos, dir: Dir, dest: Pos) -> Option<u32> {
        self.dists@[self.slot(start, dir)].at(dest)
    }

    pub open spec fn in_bounds(&self, p: Pos) -> bool {
        p.r < self.rows && p.c < self.cols
    }

    /// The table covers the grid `g` and every recorded distance is a number of pushes
    /// that brings the box there; 0 is recorded exactly at the start of a possible side.
    pub open spec fn valid_for(&self, g: Grid<MapCell>) -> bool {
        &&& self.rows == g.rows
        &&& self.cols == g.cols
        &&& self.dists@.len() == g.rows as int * g.cols as int * 4
        &&& forall|i: int|
            0 <= i < self.dists@.len() ==> (#[trigger] self.dists@[i]).wf() && self.dists@[i].rows == g.rows
                && self.dists@[i].cols == g.cols
        &&& forall|start: Pos, dir: Dir, dest: Pos|
            g.in_bounds(start) && g.in_bounds(dest) ==> {
                let o = #[trigger] self.dist(start, dir, dest);
                &&& o is Some ==> side_ok(g, start, dir) && pushes_to(g, start, dir, dest, o.unwrap() as nat)
                    && g.at(dest) != MapCell::Wall
                &&& (o == Some(0u32) <==> (dest == start && side_ok(g, start, dir)))
                &&& side_ok(g, start, dir) ==> forall|k: nat|
                    #[trigger] pushes_to(g, start, dir, dest, k) ==> (o matches Some(v) && v <= k)
            }
    }

    /// The distance for `start`, `dir` and `dest`.
    pub fn get(&self, start: Pos, dir: Dir, dest: Pos) -> (o: Option<u32>)
        requires
            exists|g: Grid<MapCell>| self.valid_for(g),
            self.in_bounds(start),
            self.in_bounds(dest),
        ensures
            o == self.dist(start, dir, dest),
    {
        let ghost g = choose|g: Grid<MapCell>| self.valid_for(g);
        proof {
            crate::vec2d::lemma_index_bounds(start.r as int, start.c as int, self.rows as int, self.cols as int);
            assert((start.r as int) * (self.cols as int) <= 255 * 255) by (nonlinear_arith)
                requires
                    start.r <= 255,
                    self.cols <= 255,
            ;
        }
        let i: usize = (start.r as usize * self.cols as usize + start.c as usize) * 4 + dir.index();
        let grid = &self.dists[i];
        proof {
            grid.lemma_idx(dest);
        }
        *grid.get(dest)
    }
}

/// The slot of cell index `i` and direction `d` in tables with four entries per cell.
pub open spec fn slot_of(i: int, d: Dir) -> int {
    i * 4 + d.spec_index() as int
}

/// The directions table holds, for every possible side, the directions of the possible pushes.
pub open spec fn table_ok(g: Grid<MapCell>, t: Seq<Vec<Dir>>) -> bool {
    &&& t.len() == g.rows as int * g.cols as int * 4
    &&& forall|p: Pos, d: Dir|
        side_ok(g, p, d) ==> forall|q: Dir|
            (#[trigger] t[slot_of(g.idx(p), d)]@).contains(q) <==> can_push_lone(
                g,
                p,
                p.step(d.spec_inverse()),
                q,
            )
}

/// For every cell and side the player may stand on, the directions in which a lone box
/// there can be pushed.
fn push_dirs_table(grid: &Vec2d<MapCell>) -> (t: Vec<Vec<Dir>>)
    requires
        grid.wf(),
        enclosed(grid@),
    ensures
        table_ok(grid@, t@),
{
    let ps = grid.positions();
    let n = ps.len();
    let mut t: Vec<Vec<Dir>> = Vec::new();
    let mut i: usize = 0;
    while i < n
        invariant
            grid.wf(),
            enclosed(grid@),
            n == ps@.len(),
            n == grid.data@.len(),
            forall|p: Pos| grid.in_bounds(p) ==> #[trigger] ps@[grid.idx(p)] == p,
            forall|j: int| 0 <= j < n ==> grid.in_bounds(#[trigger] ps@[j]),
            forall|j: int| 0 <= j < n ==> grid.idx(#[trigger] ps@[j]) == j,
            i <= n,
            t@.len() == i * 4,
            forall|j: int, d: Dir|
                0 <= j < i && side_ok(grid@, ps@[j], d) ==> forall|q: Dir|
                    (#[trigger] t@[slot_of(j, d)]@).contains(q) <==> can_push_lone(
                        grid@,
                        ps@[j],
                        ps@[j].step(d.spec_inverse()),
                        q,
                    ),
        decreases n - i,
    {
        let p = ps[i];
        let mut k: usize = 0;
        while k < 4
            invariant
                grid.wf(),
                enclosed(grid@),
                n == ps@.len(),
                n == grid.data@.len(),
                forall|j: int| 0 <= j < n ==> grid.in_bounds(#[trigger] ps@[j]),
                i < n,
                p == ps@[i as int],
                k <= 4,
                t@.len() == i * 4 + k,
                forall|j: int, d: Dir|
                    0 <= j < i && side_ok(grid@, ps@[j], d) ==> forall|q: Dir|
                        (#[trigger] t@[slot_of(j, d)]@).contains(q) <==> can_push_lone(
                            grid@,
                            ps@[j],
                            ps@[j].step(d.spec_inverse()),
                            q,
                        ),
                forall|d: Dir|
                    d.spec_index() < k && side_ok(grid@, p, d) ==> forall|q: Dir|
                        (#[trigger] t@[slot_of(i as int, d)]@).contains(q) <==> can_push_lone(
                            grid@,
                            p,
                            p.step(d.spec_inverse()),
                            q,
                        ),
            decreases 4 - k,
        {
            let d = dir_from_index(k);
            let ghost t0 = t@;
            if *grid.get(p) == MapCell::Wall {
                t.push(Vec::new());
            } else {
                assert(grid@.at(p) != MapCell::Wall);
                assert(p.is_inner());
                let player = p.sub_dir(d);
                if *grid.get(player) == MapCell::Wall {
                    t.push(Vec::new());
                } else {
                    proof {
                        crate::solver::backtracking::lemma_enclosed_player(grid@, set![p], player);
                        assert(!crate::solver::preprocessing::on_border(grid@, p));
                    }
                    t.push(one_box_push_dirs(grid, p, player));
                }
            }
            proof {
                assert(t@ == t0.push(t@[t0.len() as int]));
                assert(slot_of(i as int, d) == t0.len());
                assert forall|j: int, d2: Dir|
                    0 <= j < i && side_ok(grid@, ps@[j], d2) implies forall|q: Dir|
                        (#[trigger] t@[slot_of(j, d2)]@).contains(q) <==> can_push_lone(
                            grid@,
                            ps@[j],
                            ps@[j].step(d2.spec_inverse()),
                            q,
                        ) by {
                    assert(slot_of(j, d2) < i * 4);
                    assert(t@[slot_of(j, d2)] == t0[slot_of(j, d2)]);
                }
                assert forall|d2: Dir|
                    d2.spec_index() < k + 1 && side_ok(grid@, p, d2) implies forall|q: Dir|
                        (#[trigger] t@[slot_of(i as int, d2)]@).contains(q) <==> can_push_lone(
                            grid@,
                            p,
                            p.step(d2.spec_inverse()),
                            q,
                        ) by {
                    if d2.spec_index() < k {
                        assert(t@[slot_of(i as int, d2)] == t0[slot_of(i as int, d2)]);
                    } else {
                        assert(d2 == d);
                    }
                }
            }
            k = k + 1;
        }
        i = i + 1;
    }
    proof {
        assert forall|p: Pos, d: Dir|
            side_ok(grid@, p, d) implies forall|q: Dir|
                (#[trigger] t@[slot_of(grid@.idx(p), d)]@).contains(q) <==> can_push_lone(
                    grid@,
                    p,
                    p.step(d.spec_inverse()),
                    q,
                ) by {
            let j = grid.idx(p);
            assert(j == grid@.idx(p));
            grid.lemma_idx(p);
            assert(ps@[j] == p);
        }
        assert(table_ok(grid@, t@));
    }
    t
}

/// Every node one push away from `n` has an entry in `q` at most one level after `l`.
pub open spec fn succs_queued(g: Grid<MapCell>, q: Seq<(Pos, Dir, u32)>, n: PushNode, l: int) -> bool {
    forall|m: PushNode|
        #[trigger] lone_push(g, n, m) ==> exists|j: int| 0 <= j < q.len() && (#[trigger] q[j]).0 == m.0 && q[j].1 == m.1 && q[j].2 <= l + 1
}

proof fn lemma_succs_queued_mono(g: Grid<MapCell>, q: Seq<(Pos, Dir, u32)>, n: PushNode, l1: int, l2: int)
    requires
        succs_queued(g, q, n, l1),
        l1 <= l2,
    ensures
        succs_queued(g, q, n, l2),
{
    assert forall|m: PushNode| #[trigger] lone_push(g, n, m) implies exists|j: int|
        0 <= j < q.len() && (#[trigger] q[j]).0 == m.0 && q[j].1 == m.1 && q[j].2 <= l2 + 1 by {
        let j = choose|j: int| 0 <= j < q.len() && (#[trigger] q[j]).0 == m.0 && q[j].1 == m.1 && q[j].2 <= l1 + 1;
    }
}

/// Once every entry of a finished breadth-first search has its successors queued, every
/// node `k` pushes away from the first one has an entry at level `k` or less.
proof fn lemma_bfs_covers(g: Grid<MapCell>, q: Seq<(Pos, Dir, u32)>, s: Seq<PushNode>, m: int)
    requires
        q.len() > 0,
        q[0].0 == s[0].0,
        q[0].1 == s[0].1,
        q[0].2 == 0,
        forall|i: int| 0 <= i < q.len() ==> succs_queued(g, q, ((#[trigger] q[i]).0, q[i].1), q[i].2 as int),
        push_seq(g, s),
        0 <= m < s.len(),
    ensures
        exists|j: int| 0 <= j < q.len() && (#[trigger] q[j]).0 == s[m].0 && q[j].1 == s[m].1 && q[j].2 <= m,
    decreases m,
{
    if m > 0 {
        lemma_bfs_covers(g, q, s, m - 1);
        let j = choose|j: int| 0 <= j < q.len() && (#[trigger] q[j]).0 == s[m - 1].0 && q[j].1 == s[m - 1].1 && q[j].2 <= m - 1;
        assert(succs_queued(g, q, (q[j].0, q[j].1), q[j].2 as int));
        let i = m - 1;
        assert(lone_push(g, s[i], s[i + 1]));
        assert(s[i + 1] == s[m]);
        assert((q[j].0, q[j].1) == s[m - 1]);
        let j2 = choose|j2: int| 0 <= j2 < q.len() && (#[trigger] q[j2]).0 == s[m].0 && q[j2].1 == s[m].1 && q[j2].2 <= q[j].2 + 1;
    } else {
        assert(q[0].0 == s[0].0);
    }
}

/// Different directions have different indices.
proof fn lemma_dir_index_inj(d1: Dir, d2: Dir)
    requires
        d1.spec_index() == d2.spec_index(),
    ensures
        d1 == d2,
{
}

/// Breadth-first search over the pushes of a lone box starting at `start` with the
/// player facing `dir`; records at every cell the number of pushes of the first visit,
/// which is the least number of pushes that bring the box there.
#[verifier::rlimit(60)]
#[verifier::spinoff_prover]
fn lone_box_bfs(grid: &Vec2d<MapCell>, table: &Vec<Vec<Dir>>, start: Pos, dir: Dir) -> (dist: Vec2d<Option<u32>>)
    requires
        grid.wf(),
        enclosed(grid@),
        table_ok(grid@, table@),
        side_ok(grid@, start, dir),
    ensures
        dist.wf(),
        dist.rows == grid.rows,
        dist.cols == grid.cols,
        forall|dest: Pos|
            grid.in_bounds(dest) ==> {
                let o = #[trigger] dist.at(dest);
                &&& o is Some ==> pushes_to(grid@, start, dir, dest, o.unwrap() as nat) && grid@.at(dest)
                    != MapCell::Wall
                &&& (o == Some(0u32) <==> dest == start)
                &&& forall|k: nat| #[trigger] pushes_to(grid@, start, dir, dest, k) ==> (o matches Some(v) && v <= k)
            },
{
    let ghost g = grid@;
    let ghost first: PushNode = (start, dir);
    let mut dist: Vec2d<Option<u32>> = grid.scratchpad_with_default(None);
    proof {
        assert(grid.data@.len() <= 255 * 255) by (nonlinear_arith)
            requires
                grid.data@.len() == grid.rows as int * grid.cols as int,
                grid.rows <= 255,
                grid.cols <= 255,
        ;
    }
    let nslots: usize = grid.data.len() * 4;
    let mut visited: Vec<bool> = Vec::new();
    let mut j: usize = 0;
    while j < nslots
        invariant
            j <= nslots,
            visited@.len() == j,
            forall|i: int| 0 <= i < j ==> !visited@[i],
        decreases nslots - j,
    {
        visited.push(false);
        j = j + 1;
    }
    proof {
        lemma_count_false_all(visited@);
        lemma_reaches_start(g, first);
    }
    let mut queue: Vec<(Pos, Dir, u32)> = Vec::new();
    queue.push((start, dir, 0u32));
    let mut head: usize = 0;
    while head < queue.len()
        invariant
            g == grid@,
            first == (start, dir),
            grid.wf(),
            enclosed(g),
            table_ok(g, table@),
            side_ok(g, start, dir),
            nslots == grid.data@.len() * 4,
            grid.data@.len() <= 255 * 255,
            dist.wf(),
            dist.rows == grid.rows,
            dist.cols == grid.cols,
            visited@.len() == nslots,
            head <= queue@.len(),
            queue@.len() > 0,
            queue@[0] == (start, dir, 0u32),
            head == 0 ==> forall|i: int| 0 <= i < visited@.len() ==> !visited@[i],
            head == 0 ==> forall|p: Pos| grid.in_bounds(p) ==> (#[trigger] dist.at(p)) is None,
            forall|i: int|
                0 <= i < queue@.len() ==> {
                    let e = #[trigger] queue@[i];
                    &&& side_ok(g, e.0, e.1)
                    &&& reaches_node(g, first, (e.0, e.1), e.2 as nat)
                    &&& (i > 0 ==> e.2 > 0)
                    &&& (i >= head ==> e.2 <= count_true(visited@))
                },
            forall|dest: Pos|
                grid.in_bounds(dest) ==> {
                    let o = #[trigger] dist.at(dest);
                    &&& o is Some ==> pushes_to(g, start, dir, dest, o.unwrap() as nat) && g.at(dest)
                        != MapCell::Wall
                    &&& (o == Some(0u32) <==> (dest == start && head > 0))
                },
            // the levels of the queue never go down and span at most one level from `head` on
            forall|i: int, k: int| 0 <= i <= k < queue@.len() ==> (#[trigger] queue@[i]).2 <= (#[trigger] queue@[k]).2,
            head < queue@.len() ==> queue@[queue@.len() - 1].2 <= queue@[head as int].2 + 1,
            // every processed entry has its successors queued
            forall|i: int| 0 <= i < head ==> succs_queued(g, queue@, ((#[trigger] queue@[i]).0, queue@[i].1), queue@[i].2 as int),
            // an expanded node has a processed entry
            forall|n: PushNode|
                g.in_bounds(n.0) && 0 <= slot_of(g.idx(n.0), n.1) < nslots && #[trigger] visited@[slot_of(g.idx(n.0), n.1)]
                    ==> exists|i: int| 0 <= i < head && (#[trigger] queue@[i]).0 == n.0 && queue@[i].1 == n.1,
            // the recorded distances come from processed entries, the earliest ones
            forall|b: Pos|
                grid.in_bounds(b) && (#[trigger] dist.at(b)) is Some ==> exists|i: int|
                    0 <= i < head && (#[trigger] queue@[i]).0 == b && queue@[i].2 == dist.at(b).unwrap(),
            forall|i: int| 0 <= i < head ==> (dist.at((#[trigger] queue@[i]).0) matches Some(v) && v <= queue@[i].2),
        decreases nslots - count_true(visited@), queue@.len() - head,
    {
        proof {
            lemma_count_false_all(Seq::<bool>::empty());
            crate::solver::preprocessing::lemma_count_true_bound(visited@);
        }
        let (b, side, k) = queue[head];
        let ghost h0 = head as int;
        let ghost q00 = queue@;
        assert(side_ok(g, b, side));
        proof {
            crate::vec2d::lemma_index_bounds(b.r as int, b.c as int, grid.rows as int, grid.cols as int);
        }
        let s: usize = grid.flat_index(b) * 4 + side.index();
        assert(s == slot_of(g.idx(b), side));
        if visited[s] {
            proof {
                let n: PushNode = (b, side);
                assert(visited@[slot_of(g.idx(n.0), n.1)]);
                assert(0 <= slot_of(g.idx(n.0), n.1) < nslots);
                let i0 = choose|i: int| 0 <= i < head && (#[trigger] queue@[i]).0 == n.0 && queue@[i].1 == n.1;
                assert(succs_queued(g, queue@, (queue@[i0].0, queue@[i0].1), queue@[i0].2 as int));
                assert(queue@[i0].2 <= queue@[h0].2);
                lemma_succs_queued_mono(g, queue@, n, queue@[i0].2 as int, k as int);
                assert(dist.at(queue@[i0].0) matches Some(v) && v <= queue@[i0].2);
                if head + 1 < queue@.len() {
                    assert(queue@[h0].2 <= queue@[h0 + 1].2);
                }
            }
            head = head + 1;
            continue;
        }
        if dist.get(b).is_none() {
            proof {
                assert(pushes_to(g, start, dir, b, k as nat)) by {
                    assert(reaches_node(g, first, (b, side), k as nat));
                }
            }
            let ghost d0 = dist;
            dist.set(b, Some(k));
            proof {
                assert(queue@[head as int] == (b, side, k));
                if head > 0 {
                    assert(k > 0);
                } else {
                    assert(b == start && k == 0);
                }
                assert forall|dest: Pos|
                    grid.in_bounds(dest) implies {
                        let o = #[trigger] dist.at(dest);
                        &&& o is Some ==> pushes_to(g, start, dir, dest, o.unwrap() as nat) && g.at(dest)
                            != MapCell::Wall
                        &&& (o == Some(0u32) <==> (dest == start && head + 1 > 0))
                    } by {
                    if dest != b {
                        assert(dist.at(dest) == d0.at(dest));
                    }
                }
                assert forall|b2: Pos|
                    grid.in_bounds(b2) && (#[trigger] dist.at(b2)) is Some implies exists|i: int|
                        0 <= i < head + 1 && (#[trigger] queue@[i]).0 == b2 && queue@[i].2 == dist.at(b2).unwrap() by {
                    if b2 == b {
                        assert(queue@[h0].0 == b2);
                    } else {
                        assert(dist.at(b2) == d0.at(b2));
                        let i = choose|i: int| 0 <= i < head && (#[trigger] queue@[i]).0 == b2 && queue@[i].2 == d0.at(b2).unwrap();
                    }
                }
                assert forall|i: int| 0 <= i < head + 1 implies (dist.at((#[trigger] queue@[i]).0) matches Some(v) && v <= queue@[i].2) by {
                    if i < head {
                        assert(d0.at(queue@[i].0) matches Some(v) && v <= queue@[i].2);
                        if queue@[i].0 != b {
                            assert(dist.at(queue@[i].0) == d0.at(queue@[i].0));
                        }
                    }
                }
            }
        } else {
            proof {
                let v = dist.at(b).unwrap();
                let i0 = choose|i: int| 0 <= i < head && (#[trigger] queue@[i]).0 == b && queue@[i].2 == dist.at(b).unwrap();
                assert(queue@[i0].2 <= queue@[h0].2);
                assert(dist.at(queue@[h0].0) matches Some(v2) && v2 <= queue@[h0].2);
            }
        }
        let dirs = &table[s];
        assert(s == slot_of(grid@.idx(b), side));
        let ghost v0 = visited@;
        proof {
            lemma_count_true_set(v0, s as int);
            crate::solver::preprocessing::lemma_count_true_bound(v0.update(s as int, true));
        }
        if dirs.len() > 0 {
            proof {
                lemma_count_true_set(visited@, s as int);
            }
            visited.set(s, true);
        }
        let ghost q0 = queue@;
        assert(b.is_inner()) by {
            assert(g.at(b) != MapCell::Wall);
        }
        let mut m: usize = 0;
        while m < dirs.len()
            invariant
                g == grid@,
                first == (start, dir),
                grid.wf(),
                enclosed(g),
                table_ok(g, table@),
                side_ok(g, b, side),
                b.is_inner(),
                reaches_node(g, first, (b, side), k as nat),
                dirs@ == table@[slot_of(grid@.idx(b), side)]@,
                k as int <= count_true(v0),
                dirs@.len() > 0 ==> count_true(visited@) == count_true(v0) + 1,
                count_true(v0) < nslots,
                nslots <= 4 * 255 * 255,
                m <= dirs@.len(),
                q0.len() <= queue@.len(),
                queue@.len() == q0.len() + m,
                forall|i: int| 0 <= i < q0.len() ==> queue@[i] == q0[i],
                forall|i: int|
                    q0.len() <= i < queue@.len() ==> {
                        let e = #[trigger] queue@[i];
                        &&& side_ok(g, e.0, e.1)
                        &&& reaches_node(g, first, (e.0, e.1), e.2 as nat)
                        &&& e.2 == k + 1
                    },
                forall|mi: int|
                    #![trigger dirs@[mi]]
                    0 <= mi < m ==> exists|j: int|
                        q0.len() <= j < queue@.len() && (#[trigger] queue@[j]).0 == b.step(dirs@[mi]) && queue@[j].1 == dirs@[mi],
            decreases dirs@.len() - m,
        {
            let pd = dirs[m];
            assert(dirs@.contains(pd));
            assert(can_push_lone(g, b, b.step(side.spec_inverse()), pd));
            let nb = b.add_dir(pd);
            proof {
                assert(lone_push(g, (b, side), (nb, pd)));
                lemma_reaches_step(g, first, (b, side), (nb, pd), k as nat);
                crate::data::lemma_step_inverse(b, pd);
                crate::reach::lemma_adj_step(b, pd);
                assert(g.at(b.step(pd)) != MapCell::Wall);
                assert(!crate::solver::preprocessing::on_border(g, b));
            }
            let ghost qm = queue@;
            queue.push((nb, pd, k + 1));
            proof {
                assert(queue@[queue@.len() - 1] == (nb, pd, (k + 1) as u32));
                assert forall|mi: int| #![trigger dirs@[mi]] 0 <= mi < m + 1 implies exists|j: int|
                    q0.len() <= j < queue@.len() && (#[trigger] queue@[j]).0 == b.step(dirs@[mi]) && queue@[j].1 == dirs@[mi] by {
                    if mi < m {
                        let j = choose|j: int| q0.len() <= j < qm.len() && (#[trigger] qm[j]).0 == b.step(dirs@[mi]) && qm[j].1 == dirs@[mi];
                        assert(queue@[j] == qm[j]);
                    } else {
                        assert(queue@[queue@.len() - 1].0 == b.step(dirs@[mi]));
                    }
                }
            }
            m = m + 1;
        }
        proof {
            let n: PushNode = (b, side);
            let qf = queue@;
            // the successors of the current node are queued one level deeper
            assert(succs_queued(g, qf, n, k as int)) by {
                assert forall|mm: PushNode| #[trigger] lone_push(g, n, mm) implies exists|j: int|
                    0 <= j < qf.len() && (#[trigger] qf[j]).0 == mm.0 && qf[j].1 == mm.1 && qf[j].2 <= k + 1 by {
                    assert(dirs@.contains(mm.1));
                    let mi = choose|mi: int| 0 <= mi < dirs@.len() && dirs@[mi] == mm.1;
                    let j = choose|j: int| q0.len() <= j < qf.len() && (#[trigger] qf[j]).0 == b.step(dirs@[mi]) && qf[j].1 == dirs@[mi];
                }
            }
            // appending keeps the earlier facts
            assert forall|i: int| 0 <= i < head + 1 implies succs_queued(g, qf, ((#[trigger] qf[i]).0, qf[i].1), qf[i].2 as int) by {
                if i < head {
                    assert(qf[i] == q0[i]);
                    assert(succs_queued(g, q0, (q0[i].0, q0[i].1), q0[i].2 as int));
                    assert forall|mm: PushNode| #[trigger] lone_push(g, (q0[i].0, q0[i].1), mm) implies exists|j: int|
                        0 <= j < qf.len() && (#[trigger] qf[j]).0 == mm.0 && qf[j].1 == mm.1 && qf[j].2 <= q0[i].2 + 1 by {
                        let j = choose|j: int| 0 <= j < q0.len() && (#[trigger] q0[j]).0 == mm.0 && q0[j].1 == mm.1 && q0[j].2 <= q0[i].2 + 1;
                        assert(qf[j] == q0[j]);
                    }
                } else {
                    assert(qf[i] == q0[h0]);
                }
            }
            assert forall|i: int, kk: int| 0 <= i <= kk < qf.len() implies (#[trigger] qf[i]).2 <= (#[trigger] qf[kk]).2 by {
                if kk >= q0.len() {
                    if i >= q0.len() {
                    } else {
                        assert(qf[i] == q0[i]);
                        assert(q0[i].2 <= q0[q0.len() - 1].2);
                    }
                } else {
                    assert(qf[i] == q0[i]);
                    assert(qf[kk] == q0[kk]);
                }
            }
            if head + 1 < qf.len() {
                if head + 1 < q0.len() {
                    assert(qf[h0 + 1] == q0[h0 + 1]);
                    assert(q0[h0].2 <= q0[h0 + 1].2);
                }
                if qf.len() > q0.len() {
                } else {
                    assert(qf[qf.len() - 1] == q0[q0.len() - 1]);
                }
            }
            assert forall|nn: PushNode|
                g.in_bounds(nn.0) && 0 <= slot_of(g.idx(nn.0), nn.1) < nslots && #[trigger] visited@[slot_of(g.idx(nn.0), nn.1)]
                    implies exists|i: int| 0 <= i < head + 1 && (#[trigger] qf[i]).0 == nn.0 && qf[i].1 == nn.1 by {
                if slot_of(g.idx(nn.0), nn.1) == s {
                    assert(nn.1.spec_index() < 4);
                    assert(g.idx(nn.0) == g.idx(b));
                    if nn.0 != b {
                        grid.lemma_idx_inj(nn.0, b);
                    }
                    lemma_dir_index_inj(nn.1, side);
                    assert(qf[h0] == q0[h0]);
                } else {
                    assert(v0[slot_of(g.idx(nn.0), nn.1)]);
                    let i = choose|i: int| 0 <= i < head && (#[trigger] q0[i]).0 == nn.0 && q0[i].1 == nn.1;
                    assert(qf[i] == q0[i]);
                }
            }
            assert forall|b2: Pos|
                grid.in_bounds(b2) && (#[trigger] dist.at(b2)) is Some implies exists|i: int|
                    0 <= i < head + 1 && (#[trigger] qf[i]).0 == b2 && qf[i].2 == dist.at(b2).unwrap() by {
                let i = choose|i: int| 0 <= i < head + 1 && (#[trigger] q0[i]).0 == b2 && q0[i].2 == dist.at(b2).unwrap();
                assert(qf[i] == q0[i]);
            }
            assert forall|i: int| 0 <= i < head + 1 implies (dist.at((#[trigger] qf[i]).0) matches Some(v) && v <= qf[i].2) by {
                assert(qf[i] == q0[i]);
            }
        }
        proof {
            assert forall|i: int|
                0 <= i < queue@.len() implies {
                    let e = #[trigger] queue@[i];
                    &&& side_ok(g, e.0, e.1)
                    &&& reaches_node(g, first, (e.0, e.1), e.2 as nat)
                    &&& (i > 0 ==> e.2 > 0)
                    &&& (i >= head + 1 ==> e.2 <= count_true(visited@))
                } by {
                if i < q0.len() {
                    assert(queue@[i] == q0[i]);
                    if i >= head + 1 {
                        crate::solver::preprocessing::lemma_count_true_bound(v0);
                        if dirs@.len() > 0 {
                        } else {
                            assert(visited@ == v0);
                        }
                    }
                }
            }
        }
        head = head + 1;
    }
    proof {
        let q = queue@;
        assert forall|dest: Pos| grid.in_bounds(dest) implies forall|kk: nat| #[trigger] pushes_to(g, start, dir, dest, kk) ==> (dist.at(dest) matches Some(v) && v <= kk) by {
            assert forall|kk: nat| #[trigger] pushes_to(g, start, dir, dest, kk) implies (dist.at(dest) matches Some(v) && v <= kk) by {
                let side2 = choose|side2: Dir| #[trigger] reaches_node(g, (start, dir), (dest, side2), kk);
                let sq = choose|sq: Seq<PushNode>| #[trigger] push_seq(g, sq) && sq.len() == kk + 1 && sq[0] == (start, dir) && sq.last() == (dest, side2);
                lemma_bfs_covers(g, q, sq, kk as int);
                let j = choose|j: int| 0 <= j < q.len() && (#[trigger] q[j]).0 == sq[kk as int].0 && q[j].1 == sq[kk as int].1 && q[j].2 <= kk;
                assert(dist.at(q[j].0) matches Some(v) && v <= q[j].2);
            }
        }
    }
    dist
}

/// The distances recorded for one start cell and side.
pub open spec fn start_dists_ok(g: Grid<MapCell>, start: Pos, dir: Dir, dist: Vec2d<Option<u32>>) -> bool {
    &&& dist.wf()
    &&& dist.rows == g.rows
    &&& dist.cols == g.cols
    &&& forall|dest: Pos|
        g.in_bounds(dest) ==> {
            let o = #[trigger] dist.at(dest);
            &&& o is Some ==> side_ok(g, start, dir) && pushes_to(g, start, dir, dest, o.unwrap() as nat)
                && g.at(dest) != MapCell::Wall
            &&& (o == Some(0u32) <==> (dest == start && side_ok(g, start, dir)))
            &&& side_ok(g, start, dir) ==> forall|k: nat|
                #[trigger] pushes_to(g, start, dir, dest, k) ==> (o matches Some(v) && v <= k)
        }
}

/// For every cell a lone box can stand on and every side the player can push it from,
/// the number of pushes that bring the box to each cell (breadth-first search).
pub fn push_dists(grid: &Vec2d<MapCell>) -> (pd: PushDists)
    requires
        grid.wf(),
        enclosed(grid@),
    ensures
        pd.valid_for(grid@),
{
    let table = push_dirs_table(grid);
    let ps = grid.positions();
    let n = ps.len();
    let mut dists: Vec<Vec2d<Option<u32>>> = Vec::new();
    let mut i: usize = 0;
    while i < n
        invariant
            grid.wf(),
            enclosed(grid@),
            table_ok(grid@, table@),
            n == ps@.len(),
            n == grid.data@.len(),
            forall|p: Pos| grid.in_bounds(p) ==> #[trigger] ps@[grid.idx(p)] == p,
            forall|j: int| 0 <= j < n ==> grid.in_bounds(#[trigger] ps@[j]),
            i <= n,
            dists@.len() == i * 4,
            forall|j: int, d: Dir| 0 <= j < i ==> start_dists_ok(grid@, ps@[j], d, #[trigger] dists@[slot_of(j, d)]),
        decreases n - i,
    {
        let p = ps[i];
        let mut k: usize = 0;
        while k < 4
            invariant
                grid.wf(),
                enclosed(grid@),
                table_ok(grid@, table@),
                n == ps@.len(),
                n == grid.data@.len(),
                forall|j: int| 0 <= j < n ==> grid.in_bounds(#[trigger] ps@[j]),
                i < n,
                p == ps@[i as int],
                k <= 4,
                dists@.len() == i * 4 + k,
                forall|j: int, d: Dir| 0 <= j < i ==> start_dists_ok(grid@, ps@[j], d, #[trigger] dists@[slot_of(j, d)]),
                forall|d: Dir| d.spec_index() < k ==> start_dists_ok(grid@, p, d, #[trigger] dists@[slot_of(i as int, d)]),
            decreases 4 - k,
        {
            let d = dir_from_index(k);
            let ghost t0 = dists@;
            let mut possible = false;
            if *grid.get(p) != MapCell::Wall {
                assert(grid@.at(p) != MapCell::Wall);
                assert(p.is_inner());
                let player = p.sub_dir(d);
                if *grid.get(player) != MapCell::Wall {
                    possible = true;
                }
            }
            if possible {
                dists.push(lone_box_bfs(grid, &table, p, d));
            } else {
                let none: Vec2d<Option<u32>> = grid.scratchpad_with_default(None);
                dists.push(none);
            }
            proof {
                assert(possible == side_ok(grid@, p, d));
                assert(dists@ == t0.push(dists@[t0.len() as int]));
                assert(slot_of(i as int, d) == t0.len());
                assert(start_dists_ok(grid@, p, d, dists@[slot_of(i as int, d)]));
                assert forall|j: int, d2: Dir| 0 <= j < i implies start_dists_ok(grid@, ps@[j], d2, #[trigger] dists@[slot_of(j, d2)]) by {
                    assert(slot_of(j, d2) < i * 4);
                    assert(dists@[slot_of(j, d2)] == t0[slot_of(j, d2)]);
                }
                assert forall|d2: Dir| d2.spec_index() < k + 1 implies start_dists_ok(grid@, p, d2, #[trigger] dists@[slot_of(i as int, d2)]) by {
                    if d2.spec_index() < k {
                        assert(dists@[slot_of(i as int, d2)] == t0[slot_of(i as int, d2)]);
                    } else {
                        assert(d2 == d);
                    }
                }
            }
            k = k + 1;
        }
        i = i + 1;
    }
    let pd = PushDists { dists, rows: grid.rows(), cols: grid.cols() };
    proof {
        assert forall|j: int|
            0 <= j < pd.dists@.len() implies (#[trigger] pd.dists@[j]).wf() && pd.dists@[j].rows == grid@.rows
                && pd.dists@[j].cols == grid@.cols by {
            let c = j / 4;
            let d = spec_dir(j % 4);
            assert(slot_of(c, d) == j);
            assert(start_dists_ok(grid@, ps@[c], d, pd.dists@[slot_of(c, d)]));
        }
        assert forall|start: Pos, dir: Dir, dest: Pos|
            grid@.in_bounds(start) && grid@.in_bounds(dest) implies {
                let o = #[trigger] pd.dist(start, dir, dest);
                &&& o is Some ==> side_ok(grid@, start, dir) && pushes_to(grid@, start, dir, dest, o.unwrap() as nat)
                    && grid@.at(dest) != MapCell::Wall
                &&& (o == Some(0u32) <==> (dest == start && side_ok(grid@, start, dir)))
                &&& side_ok(grid@, start, dir) ==> forall|k: nat|
                    #[trigger] pushes_to(grid@, start, dir, dest, k) ==> (o matches Some(v) && v <= k)
            } by {
            let j = grid.idx(start);
            grid.lemma_idx(start);
            assert(ps@[j] == start);
            assert(pd.slot(start, dir) == slot_of(j, dir));
            assert(start_dists_ok(grid@, start, dir, pd.dists@[slot_of(j, dir)]));
        }
    }
    pd
}

/// A cell boxes are pushed to: a goal or the remover.
pub open spec fn is_target(g: Grid<MapCell>, p: Pos) -> bool {
    g.at(p) == MapCell::Goal || g.at(p) == MapCell::Remover
}

/// `o` is the smallest number of pushes from `src` (with the player on any side) to a goal
/// or the remover, `None` when none can be reached.
pub open spec fn closest_ok(g: Grid<MapCell>, pd: PushDists, src: Pos, o: Option<u32>) -> bool {
    &&& forall|d: Dir, dest: Pos|
        g.in_bounds(dest) && is_target(g, dest) && (#[trigger] pd.dist(src, d, dest)) is Some ==> o is Some
            && o.unwrap() <= pd.dist(src, d, dest).unwrap()
    &&& o matches Some(v) ==> exists|d: Dir, dest: Pos|
        g.in_bounds(dest) && is_target(g, dest) && #[trigger] pd.dist(src, d, dest) == Some(v)
}

/// The cells scanned so far: all directions before `k`, and cells before index `m` in direction `k`.
spec fn scanned(g: Grid<MapCell>, d: Dir, dest: Pos, k: int, m: int) -> bool {
    d.spec_index() < k || (d.spec_index() == k && g.idx(dest) < m)
}

/// For every cell, the smallest number of pushes of a lone box from there to a goal or
/// the remover.
pub fn closest_push_dists(grid: &Vec2d<MapCell>, pd: &PushDists) -> (c: Vec2d<Option<u32>>)
    requires
        grid.wf(),
        pd.valid_for(grid@),
    ensures
        c.wf(),
        c.rows == grid.rows,
        c.cols == grid.cols,
        forall|src: Pos| grid.in_bounds(src) ==> closest_ok(grid@, *pd, src, #[trigger] c.at(src)),
{
    let ghost g = grid@;
    let mut closest: Vec2d<Option<u32>> = grid.scratchpad_with_default(None);
    let ps = grid.positions();
    let n = ps.len();
    let mut i: usize = 0;
    while i < n
        invariant
            g == grid@,
            grid.wf(),
            pd.valid_for(g),
            closest.wf(),
            closest.rows == grid.rows,
            closest.cols == grid.cols,
            n == ps@.len(),
            n == grid.data@.len(),
            forall|p: Pos| grid.in_bounds(p) ==> #[trigger] ps@[grid.idx(p)] == p,
            forall|j: int| 0 <= j < n ==> grid.in_bounds(#[trigger] ps@[j]),
            forall|j: int| 0 <= j < n ==> grid.idx(#[trigger] ps@[j]) == j,
            i <= n,
            forall|src: Pos| grid.in_bounds(src) && grid.idx(src) < i ==> closest_ok(g, *pd, src, #[trigger] closest.at(src)),
        decreases n - i,
    {
        let src = ps[i];
        let mut best: Option<u32> = None;
        let mut k: usize = 0;
        while k < 4
            invariant
                g == grid@,
                grid.wf(),
                pd.valid_for(g),
                n == ps@.len(),
                n == grid.data@.len(),
                forall|j: int| 0 <= j < n ==> grid.in_bounds(#[trigger] ps@[j]),
                forall|j: int| 0 <= j < n ==> grid.idx(#[trigger] ps@[j]) == j,
                grid.in_bounds(src),
                k <= 4,
                forall|d: Dir, dest: Pos|
                    g.in_bounds(dest) && is_target(g, dest) && scanned(g, d, dest, k as int, 0) && (#[trigger] pd.dist(src, d, dest)) is Some ==> best is Some
                        && best.unwrap() <= pd.dist(src, d, dest).unwrap(),
                best matches Some(v) ==> exists|d: Dir, dest: Pos|
                    g.in_bounds(dest) && is_target(g, dest) && #[trigger] pd.dist(src, d, dest) == Some(v),
            decreases 4 - k,
        {
            let d = dir_from_index(k);
            let mut m: usize = 0;
            while m < n
                invariant
                    g == grid@,
                    grid.wf(),
                    pd.valid_for(g),
                    n == ps@.len(),
                    n == grid.data@.len(),
                    forall|j: int| 0 <= j < n ==> grid.in_bounds(#[trigger] ps@[j]),
                    forall|j: int| 0 <= j < n ==> grid.idx(#[trigger] ps@[j]) == j,
                    grid.in_bounds(src),
                    k < 4,
                    d == spec_dir(k as int),
                    d.spec_index() == k,
                    m <= n,
                    forall|d2: Dir, dest: Pos|
                        g.in_bounds(dest) && is_target(g, dest) && scanned(g, d2, dest, k as int, m as int) && (#[trigger] pd.dist(src, d2, dest)) is Some ==> best is Some
                            && best.unwrap() <= pd.dist(src, d2, dest).unwrap(),
                    best matches Some(v) ==> exists|d2: Dir, dest: Pos|
                        g.in_bounds(dest) && is_target(g, dest) && #[trigger] pd.dist(src, d2, dest) == Some(v),
                decreases n - m,
            {
                let dest = ps[m];
                let cell = *grid.get(dest);
                if cell == MapCell::Goal || cell == MapCell::Remover {
                    let cur = pd.get(src, d, dest);
                    match best {
                        None => best = cur,
                        Some(best_dist) => {
                            if let Some(cur_dist) = cur {
                                if cur_dist < best_dist {
                                    best = cur;
                                }
                            }
                        },
                    }
                }
                proof {
                    assert forall|d2: Dir, dest2: Pos|
                        g.in_bounds(dest2) && is_target(g, dest2) && scanned(g, d2, dest2, k as int, m + 1) && (#[trigger] pd.dist(src, d2, dest2)) is Some implies best is Some
                            && best.unwrap() <= pd.dist(src, d2, dest2).unwrap() by {
                        if d2.spec_index() == k && g.idx(dest2) == m {
                            if dest2 != dest {
                                grid.lemma_idx_inj(dest2, dest);
                            }
                            assert(dest2 == dest);
                            assert(d2 == d);
                        }
                    }
                }
                m = m + 1;
            }
            proof {
                assert forall|d2: Dir, dest: Pos|
                    g.in_bounds(dest) && is_target(g, dest) && scanned(g, d2, dest, k + 1, 0) && (#[trigger] pd.dist(src, d2, dest)) is Some implies best is Some
                        && best.unwrap() <= pd.dist(src, d2, dest).unwrap() by {
                    if d2.spec_index() == k {
                        grid.lemma_idx(dest);
                        assert(scanned(g, d2, dest, k as int, n as int));
                    }
                }
            }
            k = k + 1;
        }
        let ghost c0 = closest;
        closest.set(src, best);
        proof {
            assert forall|src2: Pos| grid.in_bounds(src2) && grid.idx(src2) < i + 1 implies closest_ok(g, *pd, src2, #[trigger] closest.at(src2)) by {
                if src2 == src {
                    assert forall|d: Dir, dest: Pos|
                        g.in_bounds(dest) && is_target(g, dest) && (#[trigger] pd.dist(src, d, dest)) is Some implies best is Some
                            && best.unwrap() <= pd.dist(src, d, dest).unwrap() by {
                        assert(scanned(g, d, dest, 4, 0));
                    }
                } else {
                    assert(grid.idx(src2) != grid.idx(src)) by {
                        grid.lemma_idx_inj(src2, src);
                    }
                    assert(closest.at(src2) == c0.at(src2));
                }
            }
        }
        i = i + 1;
    }
    proof {
        assert forall|src: Pos| grid.in_bounds(src) implies closest_ok(grid@, *pd, src, #[trigger] closest.at(src)) by {
            grid.lemma_idx(src);
        }
    }
    closest
}

} // verus!
