//! Work done once per level before the search: which cells the player can reach and
//! how many pushes a lone box needs between cells.
use vstd::prelude::*;

use crate::data::{Dir, MapCell, Pos};
use crate::reach::{adj, can_enter, connected, lemma_closed_contains, lemma_connected_refl, lemma_connected_step};
use crate::rules::step_on;
use crate::solver::SolverErr;
use crate::vec2d::{Grid, Vec2d};

verus! {

/// `p` lies in the outermost rows or columns of the grid.
pub open spec fn on_border(g: Grid<MapCell>, p: Pos) -> bool {
    p.r == 0 || p.c == 0 || p.r + 1 >= g.rows || p.c + 1 >= g.cols
}

/// The number of true entries.
pub open spec fn count_true(s: Seq<bool>) -> nat
    decreases s.len(),
{
    if s.len() == 0 {
        0
    } else {
        count_true(s.drop_last()) + if s.last() {
            1nat
        } else {
            0nat
        }
    }
}

pub proof fn lemma_count_true_bound(s: Seq<bool>)
    ensures
        count_true(s) <= s.len(),
    decreases s.len(),
{
    if s.len() > 0 {
        lemma_count_true_bound(s.drop_last());
    }
}

pub proof fn lemma_count_true_set(s: Seq<bool>, i: int)
    requires
        0 <= i < s.len(),
        !s[i],
    ensures
        count_true(s.update(i, true)) == count_true(s) + 1,
    decreases s.len(),
{
    let t = s.update(i, true);
    if i == s.len() - 1 {
        assert(t.drop_last() =~= s.drop_last());
    } else {
        assert(t.drop_last() =~= s.drop_last().update(i, true));
        lemma_count_true_set(s.drop_last(), i);
    }
}

/// Checks that the player cannot leave the level and turns every cell the player cannot
/// reach into a wall. Fails exactly when a cell the player can reach lies on the border.
pub fn check_reachability(grid: &Vec2d<MapCell>, start: Pos) -> (res: Result<Vec2d<MapCell>, SolverErr>)
    requires
        grid.wf(),
        grid.in_bounds(start),
    ensures
        match res {
            Err(e) => e == SolverErr::IncompleteBorder && exists|p: Pos|
                #[trigger] connected(grid@, Set::empty(), start, p) && on_border(grid@, p),
            Ok(pg) => {
                &&& forall|p: Pos| #[trigger] connected(grid@, Set::empty(), start, p) ==> !on_border(grid@, p)
                &&& pg.wf()
                &&& pg.same_dims(grid)
                &&& forall|p: Pos|
                    pg.in_bounds(p) ==> #[trigger] pg.at(p) == if connected(grid@, Set::empty(), start, p) {
                        grid.at(p)
                    } else {
                        MapCell::Wall
                    }
            },
        },
{
    let ghost g = grid@;
    let ghost e = Set::<Pos>::empty();
    let mut visited: Vec2d<bool> = grid.scratchpad_with_default(false);
    let mut to_visit: Vec<Pos> = Vec::new();
    to_visit.push(start);
    proof {
        lemma_connected_refl(g, e, start);
        assert(to_visit@[0] == start);
    }
    while to_visit.len() > 0
        invariant
            g == grid@,
            e == Set::<Pos>::empty(),
            grid.wf(),
            visited.wf(),
            visited.same_dims(grid),
            grid.in_bounds(start),
            forall|i: int| 0 <= i < to_visit@.len() ==> grid.in_bounds(#[trigger] to_visit@[i]) && connected(g, e, start, to_visit@[i]),
            forall|p: Pos| grid.in_bounds(p) && #[trigger] visited.at(p) ==> connected(g, e, start, p) && !on_border(g, p),
            visited.at(start) || to_visit@.contains(start),
            forall|p: Pos, q: Pos|
                #![trigger visited.at(p), adj(p, q)]
                grid.in_bounds(p) && visited.at(p) && adj(p, q) && can_enter(g, e, q) ==> visited.at(q) || to_visit@.contains(q),
        decreases visited.data@.len() - count_true(visited.data@), to_visit@.len(),
    {
        let ghost stack = to_visit@;
        let cur = to_visit.pop().unwrap();
        proof {
            assert(stack == to_visit@.push(cur));
            assert forall|q: Pos| stack.contains(q) && q != cur implies to_visit@.contains(q) by {
                let i = choose|i: int| 0 <= i < stack.len() && stack[i] == q;
            }
            assert(connected(g, e, start, cur));
            lemma_count_true_bound(visited.data@);
        }
        if *visited.get(cur) {
            continue;
        }
        if cur.r == 0 || cur.c == 0 || cur.r + 1 >= grid.rows() || cur.c + 1 >= grid.cols() {
            proof {
                assert(on_border(grid@, cur));
                assert(connected(grid@, Set::empty(), start, cur));
            }
            return Err(SolverErr::IncompleteBorder);
        }
        let ghost before = visited;
        proof {
            visited.lemma_idx(cur);
            lemma_count_true_set(visited.data@, visited.idx(cur));
        }
        visited.set(cur, true);
        let ghost stack1 = to_visit@;
        let mut k: usize = 0;
        while k < 4
            invariant
                g == grid@,
                e == Set::<Pos>::empty(),
                grid.wf(),
                visited.wf(),
                visited.same_dims(grid),
                grid.in_bounds(cur),
                !on_border(g, cur),
                visited.at(cur),
                connected(g, e, start, cur),
                0 <= k <= 4,
                stack1.len() <= to_visit@.len(),
                forall|i: int| 0 <= i < stack1.len() ==> to_visit@[i] == stack1[i],
                forall|i: int| 0 <= i < to_visit@.len() ==> grid.in_bounds(#[trigger] to_visit@[i]) && connected(g, e, start, to_visit@[i]),
                forall|j: int| 0 <= j < k ==> {
                    let q = #[trigger] cur.step(crate::data::spec_dir(j));
                    can_enter(g, e, q) ==> visited.at(q) || to_visit@.contains(q)
                },
            decreases 4 - k,
        {
            let d = crate::data::dir_from_index(k);
            let q = cur.add_dir(d);
            proof {
                crate::reach::lemma_adj_step(cur, d);
            }
            if !*visited.get(q) && *grid.get(q) != MapCell::Wall {
                proof {
                    lemma_connected_step(g, e, start, cur, q);
                }
                let ghost st = to_visit@;
                to_visit.push(q);
                proof {
                    assert(to_visit@[to_visit@.len() - 1] == q);
                    assert forall|x: Pos| st.contains(x) implies to_visit@.contains(x) by {
                        let i = choose|i: int| 0 <= i < st.len() && st[i] == x;
                        assert(to_visit@[i] == x);
                    }
                }
            }
            k = k + 1;
        }
        proof {
            assert(count_true(visited.data@) == count_true(before.data@) + 1);
            lemma_count_true_bound(visited.data@);
            assert forall|q: Pos| stack1.contains(q) implies to_visit@.contains(q) by {
                let i = choose|i: int| 0 <= i < stack1.len() && stack1[i] == q;
                assert(to_visit@[i] == q);
            }
            assert forall|p: Pos, q: Pos|
                #![trigger visited.at(p), adj(p, q)]
                grid.in_bounds(p) && visited.at(p) && adj(p, q) && can_enter(g, e, q) implies visited.at(q) || to_visit@.contains(q) by {
                if p == cur {
                    crate::reach::lemma_adj_dir(p, q);
                    let j: int = if q.r + 1 == p.r { 0 } else if q.c == p.c + 1 { 1 } else if q.r == p.r + 1 { 2 } else { 3 };
                    assert(q == cur.step(crate::data::spec_dir(j)));
                } else {
                    assert(before.at(p));
                    if q != cur && !before.at(q) {
                        assert(stack.contains(q));
                    }
                }
            }
        }
    }
    let ghost s = Set::new(|p: Pos| grid.in_bounds(p) && visited.at(p));
    proof {
        assert forall|p: Pos| #[trigger] connected(g, e, start, p) implies grid.in_bounds(p) && visited.at(p) by {
            lemma_closed_contains(g, e, s, start, p);
        }
    }
    let mut processed = grid.copy();
    let n = processed.data.len();
    let mut i: usize = 0;
    while i < n
        invariant
            n == processed.data@.len(),
            n == visited.data@.len(),
            n == grid.data@.len(),
            i <= n,
            forall|j: int| 0 <= j < i ==> #[trigger] processed.data@[j] == if visited.data@[j] { grid.data@[j] } else { MapCell::Wall },
            forall|j: int| i <= j < n ==> #[trigger] processed.data@[j] == grid.data@[j],
            processed.same_dims(grid),
        decreases n - i,
    {
        if !visited.data[i] {
            processed.data.set(i, MapCell::Wall);
        }
        i = i + 1;
    }
    proof {
        assert forall|p: Pos| processed.in_bounds(p) implies #[trigger] processed.at(p) == if connected(g, e, start, p) {
            grid.at(p)
        } else {
            MapCell::Wall
        } by {
            grid.lemma_idx(p);
            let j = processed.idx(p);
            assert(processed.at(p) == processed.data@[j]);
            assert(visited.at(p) == visited.data@[j]);
            assert(grid.at(p) == grid.data@[j]);
            if connected(g, e, start, p) {
                assert(visited.at(p));
            } else {
                assert(!visited.at(p));
            }
        }
    }
    Ok(processed)
}

/// Every cell that is not a wall has its four neighbors on the grid.
pub open spec fn enclosed(g: Grid<MapCell>) -> bool {
    forall|p: Pos| g.in_bounds(p) && #[trigger] g.at(p) != MapCell::Wall ==> !on_border(g, p)
}

/// A lone box at `b` can be pushed in direction `d` when the player starts at `start`:
/// the player can walk around the box to the cell behind it, and the cell in front of
/// the box is not a wall.
pub open spec fn can_push_lone(g: Grid<MapCell>, b: Pos, start: Pos, d: Dir) -> bool {
    &&& connected(g, set![b], start, b.step(d.spec_inverse()))
    &&& g.at(b.step(d)) != MapCell::Wall
}

pub proof fn lemma_count_false_all(s: Seq<bool>)
    requires
        forall|i: int| 0 <= i < s.len() ==> !s[i],
    ensures
        count_true(s) == 0,
    decreases s.len(),
{
    if s.len() > 0 {
        lemma_count_false_all(s.drop_last());
    }
}

proof fn lemma_push_contains(s: Seq<Dir>, x: Dir, d: Dir)
    ensures
        s.push(x).contains(d) <==> s.contains(d) || d == x,
{
    if s.contains(d) {
        let i = choose|i: int| 0 <= i < s.len() && s[i] == d;
        assert(s.push(x)[i] == d);
    }
    if d == x {
        assert(s.push(x)[s.len() as int] == d);
    }
    if s.push(x).contains(d) {
        let i = choose|i: int| 0 <= i < s.len() + 1 && s.push(x)[i] == d;
        if i < s.len() {
            assert(s[i] == d);
        }
    }
}

/// Four different directions are all directions.
proof fn lemma_four_dirs(s: Seq<Dir>)
    requires
        s.len() == 4,
        s.no_duplicates(),
    ensures
        forall|d: Dir| s.contains(d),
{
    assert forall|d: Dir| s.contains(d) by {
        if !s.contains(d) {
            assert(s[0] != d && s[1] != d && s[2] != d && s[3] != d);
            assert(s[0] != s[1] && s[0] != s[2] && s[0] != s[3] && s[1] != s[2] && s[1] != s[3] && s[2] != s[3]);
        }
    }
}

/// Finds in which directions a lone box can be pushed by a player starting at `player_start`.
pub fn one_box_push_dirs(grid: &Vec2d<MapCell>, box_pos: Pos, player_start: Pos) -> (dirs: Vec<Dir>)
    requires
        grid.wf(),
        grid.in_bounds(box_pos),
        grid.at(box_pos) != MapCell::Wall,
        grid.in_bounds(player_start),
        grid.at(player_start) != MapCell::Wall,
        player_start != box_pos,
        crate::solver::backtracking::player_enclosed(grid@, set![box_pos], player_start),
        !on_border(grid@, box_pos),
    ensures
        forall|d: Dir| #[trigger] dirs@.contains(d) <==> can_push_lone(grid@, box_pos, player_start, d),
        dirs@.no_duplicates(),
{
    let ghost g = grid@;
    let ghost blocked = set![box_pos];
    let mut ret: Vec<Dir> = Vec::new();
    let mut touched: Vec2d<bool> = grid.scratchpad_with_default(false);
    proof {
        touched.lemma_idx(player_start);
        lemma_count_true_set(touched.data@, touched.idx(player_start));
        assert(count_true(touched.data@) == 0) by {
            assert(forall|i: int| 0 <= i < touched.data@.len() ==> !touched.data@[i]);
            lemma_count_false_all(touched.data@);
        }
    }
    touched.set(player_start, true);
    let mut queue: Vec<Pos> = Vec::new();
    queue.push(player_start);
    proof {
        lemma_connected_refl(g, blocked, player_start);
        assert(queue@[0] == player_start);
        assert forall|p: Pos| grid.in_bounds(p) && #[trigger] touched.at(p) implies queue@.contains(p) by {
            assert(p == player_start);
        }
    }
    let mut head: usize = 0;
    while head < queue.len()
        invariant
            g == grid@,
            blocked == set![box_pos],
            grid.wf(),
            crate::solver::backtracking::player_enclosed(g, blocked, player_start),
            !on_border(g, box_pos),
            touched.wf(),
            touched.same_dims(grid),
            grid.in_bounds(box_pos),
            g.at(box_pos) != MapCell::Wall,
            head <= queue@.len(),
            grid.in_bounds(player_start),
            touched.at(player_start),
            queue@.len() == count_true(touched.data@),
            queue@.no_duplicates(),
            forall|i: int|
                0 <= i < queue@.len() ==> {
                    let p = #[trigger] queue@[i];
                    &&& grid.in_bounds(p)
                    &&& g.at(p) != MapCell::Wall
                    &&& p != box_pos
                    &&& connected(g, blocked, player_start, p)
                    &&& touched.at(p)
                },
            forall|p: Pos| grid.in_bounds(p) && #[trigger] touched.at(p) ==> queue@.contains(p),
            forall|i: int, q: Pos|
                #![trigger queue@[i], adj(queue@[i], q)]
                0 <= i < head && adj(queue@[i], q) && can_enter(g, blocked, q) ==> touched.at(q),
            forall|d: Dir|
                #[trigger] ret@.contains(d) <==> (exists|i: int|
                    0 <= i < head && #[trigger] queue@[i] == box_pos.step(d.spec_inverse()))
                    && g.at(box_pos.step(d)) != MapCell::Wall,
            ret@.no_duplicates(),
            ret@.len() < 4,
        decreases touched.data@.len() - head,
    {
        proof {
            lemma_count_true_bound(touched.data@);
        }
        let cur = queue[head];
        let ghost ret0 = ret@;
        let ghost queue0 = queue@;
        let ghost touched0 = touched;
        assert(cur.is_inner());
        proof {
            assert forall|d: Dir| ret0.contains(d) implies cur.step(d) != box_pos by {
                if cur.step(d) == box_pos {
                    crate::data::lemma_step_inverse(cur, d);
                    let i = choose|i: int| 0 <= i < head && #[trigger] queue0[i] == box_pos.step(d.spec_inverse());
                    assert(queue0[i] == queue0[head as int]);
                }
            }
        }
        let mut k: usize = 0;
        while k < 4
            invariant
                g == grid@,
                blocked == set![box_pos],
                grid.wf(),
                crate::solver::backtracking::player_enclosed(g, blocked, player_start),
                !on_border(g, box_pos),
                touched.wf(),
                touched.same_dims(grid),
                grid.in_bounds(box_pos),
                g.at(box_pos) != MapCell::Wall,
                cur.is_inner(),
                cur == queue0[head as int],
                head < queue0.len(),
                0 <= k <= 4,
                queue0.len() <= queue@.len(),
                grid.in_bounds(player_start),
                touched.at(player_start),
                forall|d: Dir|
                    #[trigger] ret0.contains(d) <==> (exists|i: int|
                        0 <= i < head && #[trigger] queue0[i] == box_pos.step(d.spec_inverse()))
                        && g.at(box_pos.step(d)) != MapCell::Wall,
                forall|i: int| 0 <= i < queue0.len() ==> queue@[i] == queue0[i],
                queue@.len() == count_true(touched.data@),
                queue@.no_duplicates(),
                forall|i: int|
                    0 <= i < queue@.len() ==> {
                        let p = #[trigger] queue@[i];
                        &&& grid.in_bounds(p)
                        &&& g.at(p) != MapCell::Wall
                        &&& p != box_pos
                        &&& connected(g, blocked, player_start, p)
                        &&& touched.at(p)
                    },
                forall|p: Pos| grid.in_bounds(p) && #[trigger] touched.at(p) ==> queue@.contains(p),
                forall|p: Pos| grid.in_bounds(p) && #[trigger] touched0.at(p) ==> touched.at(p),
                forall|j: int|
                    0 <= j < k ==> {
                        let q = #[trigger] cur.step(crate::data::spec_dir(j));
                        can_enter(g, blocked, q) ==> touched.at(q)
                    },
                forall|d: Dir|
                    #[trigger] ret@.contains(d) <==> ((ret0.contains(d)) || (cur.step(d) == box_pos
                        && d.spec_index() < k && g.at(box_pos.step(d)) != MapCell::Wall)),
                forall|d: Dir| ret0.contains(d) ==> cur.step(d) != box_pos,
                ret@.no_duplicates(),
                ret@.len() < 4,
            decreases 4 - k,
        {
            let dir = crate::data::dir_from_index(k);
            let next = cur.add_dir(dir);
            proof {
                crate::reach::lemma_adj_step(cur, dir);
            }
            if next == box_pos {
                let front = next.add_dir(dir);
                if *grid.get(front) != MapCell::Wall {
                    let ghost r1 = ret@;
                    proof {
                        assert(!r1.contains(dir));
                    }
                    ret.push(dir);
                    proof {
                        assert forall|d: Dir| #[trigger] ret@.contains(d) <==> ((ret0.contains(d)) || (cur.step(d) == box_pos
                            && d.spec_index() < k + 1 && g.at(box_pos.step(d)) != MapCell::Wall)) by {
                            lemma_push_contains(r1, dir, d);
                        }
                        assert forall|i: int, j: int| 0 <= i < ret@.len() && 0 <= j < ret@.len() && i != j implies ret@[i] != ret@[j] by {
                            if i < r1.len() && j < r1.len() {
                                assert(r1[i] != r1[j]);
                            } else if i < r1.len() {
                                assert(r1.contains(r1[i]));
                            } else {
                                assert(r1.contains(r1[j]));
                            }
                        }
                    }
                    if ret.len() == 4 {
                        proof {
                            lemma_four_dirs(ret@);
                            assert forall|d: Dir| #[trigger] ret@.contains(d) <==> can_push_lone(g, box_pos, player_start, d) by {
                                assert(ret@.contains(d));
                                if ret0.contains(d) {
                                    let i = choose|i: int| 0 <= i < head && #[trigger] queue0[i] == box_pos.step(d.spec_inverse());
                                    assert(queue@[i] == queue0[i]);
                                } else {
                                    crate::data::lemma_step_inverse(cur, d);
                                    assert(cur == box_pos.step(d.spec_inverse()));
                                    assert(queue@[head as int] == cur);
                                }
                            }
                        }
                        return ret;
                    }
                }
            } else if *grid.get(next) != MapCell::Wall && !*touched.get(next) {
                proof {
                    lemma_connected_step(g, blocked, player_start, cur, next);
                    touched.lemma_idx(next);
                    lemma_count_true_set(touched.data@, touched.idx(next));
                }
                let ghost t1 = touched;
                touched.set(next, true);
                let ghost q1 = queue@;
                queue.push(next);
                proof {
                    assert(!q1.contains(next));
                    assert forall|p: Pos| grid.in_bounds(p) && #[trigger] touched.at(p) implies queue@.contains(p) by {
                        if p == next {
                            assert(queue@[queue@.len() - 1] == next);
                        } else {
                            assert(t1.at(p));
                            let i = choose|i: int| 0 <= i < q1.len() && q1[i] == p;
                            assert(queue@[i] == p);
                        }
                    }
                    assert forall|i: int| 0 <= i < queue@.len() implies {
                        let p = #[trigger] queue@[i];
                        &&& grid.in_bounds(p)
                        &&& g.at(p) != MapCell::Wall
                        &&& p != box_pos
                        &&& connected(g, blocked, player_start, p)
                        &&& touched.at(p)
                    } by {
                        if i < q1.len() {
                            assert(queue@[i] == q1[i]);
                            assert(t1.at(q1[i]));
                        }
                    }
                }
            }
            proof {
                assert forall|d: Dir| #[trigger] ret@.contains(d) <==> ((ret0.contains(d)) || (cur.step(d) == box_pos
                    && d.spec_index() < k + 1 && g.at(box_pos.step(d)) != MapCell::Wall)) by {
                    if d == dir {
                    }
                }
            }
            k = k + 1;
        }
        proof {
            assert forall|d: Dir|
                #[trigger] ret@.contains(d) <==> (exists|i: int|
                    0 <= i < head + 1 && #[trigger] queue@[i] == box_pos.step(d.spec_inverse()))
                    && g.at(box_pos.step(d)) != MapCell::Wall by {
                crate::data::lemma_step_inverse(cur, d);
                crate::data::lemma_step_inverse(box_pos, d.spec_inverse());
                crate::data::lemma_inverse_involution(d);
                if ret@.contains(d) {
                    if ret0.contains(d) {
                        let i = choose|i: int| 0 <= i < head && #[trigger] queue0[i] == box_pos.step(d.spec_inverse());
                        assert(queue@[i] == queue0[i]);
                    } else {
                        assert(queue@[head as int] == cur);
                    }
                }
                if exists|i: int| 0 <= i < head + 1 && #[trigger] queue@[i] == box_pos.step(d.spec_inverse()) {
                    let i = choose|i: int| 0 <= i < head + 1 && #[trigger] queue@[i] == box_pos.step(d.spec_inverse());
                    if i < head {
                        assert(queue0[i] == queue@[i]);
                    } else {
                        assert(cur == box_pos.step(d.spec_inverse()));
                        assert(cur.step(d) == box_pos);
                    }
                }
            }
            assert forall|i: int, q: Pos|
                #![trigger queue@[i], adj(queue@[i], q)]
                0 <= i < head + 1 && adj(queue@[i], q) && can_enter(g, blocked, q) implies touched.at(q) by {
                if i < head {
                    assert(queue0[i] == queue@[i]);
                    assert(touched0.at(q));
                } else {
                    assert(queue@[i] == cur);
                    crate::reach::lemma_adj_dir(cur, q);
                    let j: int = if q.r + 1 == cur.r { 0 } else if q.c == cur.c + 1 { 1 } else if q.r == cur.r + 1 { 2 } else { 3 };
                    assert(q == cur.step(crate::data::spec_dir(j)));
                }
            }
        }
        head = head + 1;
    }
    let ghost s = Set::new(|p: Pos| grid.in_bounds(p) && touched.at(p));
    proof {
        assert forall|d: Dir| #[trigger] ret@.contains(d) <==> can_push_lone(g, box_pos, player_start, d) by {
            if can_push_lone(g, box_pos, player_start, d) {
                let c = box_pos.step(d.spec_inverse());
                assert forall|p: Pos, q: Pos|
                    #![trigger s.contains(p), adj(p, q)]
                    s.contains(p) && adj(p, q) && can_enter(g, blocked, q) implies s.contains(q) by {
                    assert(queue@.contains(p));
                    let i = choose|i: int| 0 <= i < queue@.len() && queue@[i] == p;
                    assert(touched.at(q));
                }
                lemma_closed_contains(g, blocked, s, player_start, c);
                assert(queue@.contains(c));
                let i = choose|i: int| 0 <= i < queue@.len() && queue@[i] == c;
            }
            if ret@.contains(d) {
                let i = choose|i: int| 0 <= i < head && #[trigger] queue@[i] == box_pos.step(d.spec_inverse());
            }
        }
    }
    ret
}

} // verus!
