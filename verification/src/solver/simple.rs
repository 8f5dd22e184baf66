//! A plain A* search over pushes that stops at the first solution it finds, guided by the
//! sum of the distances of the boxes to their nearest targets. It is what finds the dead
//! ends of a level: cells from which a lone box cannot be brought to a target.
use vstd::multiset::Multiset;
use vstd::prelude::*;

use crate::data::{Dir, MapCell, Pos, MAX_BOXES};
use crate::map::MapType;
use crate::moves::Move;
use crate::reach::{adj, can_enter, connected, lemma_closed_contains, lemma_connected_refl, lemma_connected_step};
use crate::rules::{apply_move, solved, state_on_grid, try_apply_move};
use crate::solution_formatter::grid_ok;
use crate::solver::a_star::{count_at, counted, separated, separated_text, sum_counts, total};
use crate::solver::backtracking::{can_push, lemma_enclosed_player, player_enclosed, push_at, push_succ, search_state};
use crate::solver::heap::MinHeap;
use crate::solver::preprocessing::{enclosed, on_border};
use crate::solver::collections::StateView;
use crate::solver::{box_indices, heap_ok, lemma_heap_ok_remove, push_box};
use crate::state::{sorted, State};
use crate::text::{chars_of, decimal, decimal_u64, push_char, push_chars};
use crate::vec2d::{Grid, Vec2d};

verus! {

/// Counts of the states of a search by depth, the number of pushes that led to them.
#[derive(Debug)]
pub struct Stats {
    pub created_states: Vec<u64>,
    pub duplicate_states: Vec<u64>,
    pub visited_states: Vec<u64>,
}

/// The lines `depth: count` for the first `n` depths.
pub open spec fn count_lines(s: Seq<u64>, n: nat) -> Seq<char>
    decreases n,
{
    if n == 0 {
        Seq::empty()
    } else {
        count_lines(s, (n - 1) as nat) + decimal(n - 1) + ": "@ + decimal(s[n - 1] as int) + seq!['\n']
    }
}

/// The first `n` counts separated by commas.
pub open spec fn items_text(s: Seq<u64>, n: nat) -> Seq<char>
    decreases n,
{
    if n == 0 {
        Seq::empty()
    } else if n == 1 {
        decimal(s[0] as int)
    } else {
        items_text(s, (n - 1) as nat) + ", "@ + decimal(s[n - 1] as int)
    }
}

/// The counts as a list in square brackets, such as `[1, 2, 3]`.
pub open spec fn list_text(s: Seq<u64>) -> Seq<char> {
    seq!['['] + items_text(s, s.len()) + seq![']']
}

/// Appends the lines `depth: count` of all depths.
fn push_count_lines(s: &mut String, counts: &Vec<u64>)
    ensures
        final(s)@ == old(s)@ + count_lines(counts@, counts@.len()),
{
    let ghost s0 = s@;
    let mut i: usize = 0;
    while i < counts.len()
        invariant
            i <= counts@.len(),
            s@ == s0 + count_lines(counts@, i as nat),
        decreases counts@.len() - i,
    {
        let ghost before = s@;
        push_chars(s, &decimal_u64(i as u64));
        push_chars(s, &chars_of(": "));
        push_chars(s, &decimal_u64(counts[i]));
        push_char(s, '\n');
        proof {
            assert(s@ =~= before + decimal(i as int) + ": "@ + decimal(counts@[i as int] as int) + seq!['\n']);
            assert(s@ =~= s0 + count_lines(counts@, (i + 1) as nat));
        }
        i = i + 1;
    }
}

/// Appends the counts as a list in square brackets.
fn push_list(s: &mut String, counts: &Vec<u64>)
    ensures
        final(s)@ == old(s)@ + list_text(counts@),
{
    let ghost s0 = s@;
    push_char(s, '[');
    let mut i: usize = 0;
    while i < counts.len()
        invariant
            i <= counts@.len(),
            s@ == s0 + seq!['['] + items_text(counts@, i as nat),
        decreases counts@.len() - i,
    {
        let ghost before = s@;
        if i > 0 {
            push_chars(s, &chars_of(", "));
        }
        push_chars(s, &decimal_u64(counts[i]));
        proof {
            if i > 0 {
                assert(s@ =~= before + ", "@ + decimal(counts@[i as int] as int));
            } else {
                assert(s@ =~= before + decimal(counts@[i as int] as int));
            }
            assert(s@ =~= s0 + seq!['['] + items_text(counts@, (i + 1) as nat));
        }
        i = i + 1;
    }
    push_char(s, ']');
    proof {
        assert(s@ =~= s0 + list_text(counts@));
    }
}

impl Stats {
    pub fn new() -> (s: Stats)
        ensures
            s.created_states@ == Seq::<u64>::empty(),
            s.duplicate_states@ == Seq::<u64>::empty(),
            s.visited_states@ == Seq::<u64>::empty(),
    {
        Stats { created_states: Vec::new(), duplicate_states: Vec::new(), visited_states: Vec::new() }
    }

    pub fn total_created(&self) -> (t: u64)
        ensures
            t == total(self.created_states@),
    {
        sum_counts(&self.created_states)
    }

    pub fn total_duplicate(&self) -> (t: u64)
        ensures
            t == total(self.duplicate_states@),
    {
        sum_counts(&self.duplicate_states)
    }

    pub fn total_visited(&self) -> (t: u64)
        ensures
            t == total(self.visited_states@),
    {
        sum_counts(&self.visited_states)
    }

    /// Counts a created state at `depth`; true when no state that deep was created before.
    pub fn add_created(&mut self, depth: usize) -> (deeper: bool)
        ensures
            final(self).created_states@ == counted(old(self).created_states@, depth as int),
            final(self).duplicate_states@ == old(self).duplicate_states@,
            final(self).visited_states@ == old(self).visited_states@,
            deeper == (depth >= old(self).created_states@.len()),
    {
        count_at(&mut self.created_states, depth)
    }

    /// Counts a state at `depth` that was reached again; true when it is the first that deep.
    pub fn add_duplicate(&mut self, depth: usize) -> (deeper: bool)
        ensures
            final(self).duplicate_states@ == counted(old(self).duplicate_states@, depth as int),
            final(self).created_states@ == old(self).created_states@,
            final(self).visited_states@ == old(self).visited_states@,
            deeper == (depth >= old(self).duplicate_states@.len()),
    {
        count_at(&mut self.duplicate_states, depth)
    }

    /// Counts a visited state at `depth`; true when it is the first visited that deep.
    pub fn add_visited(&mut self, depth: usize) -> (deeper: bool)
        ensures
            final(self).visited_states@ == counted(old(self).visited_states@, depth as int),
            final(self).created_states@ == old(self).created_states@,
            final(self).duplicate_states@ == old(self).duplicate_states@,
            deeper == (depth >= old(self).visited_states@.len()),
    {
        count_at(&mut self.visited_states, depth)
    }

    pub open spec fn spec_text(&self) -> Seq<char> {
        "States created total: "@ + separated_text(total(self.created_states@) as int) + seq!['\n']
            + "Reached duplicates total: "@ + separated_text(total(self.duplicate_states@) as int)
            + seq!['\n'] + "States visited total: "@ + separated_text(total(self.visited_states@) as int)
            + seq!['\n'] + "Depth / created states:"@ + seq!['\n'] + count_lines(
            self.created_states@,
            self.created_states@.len(),
        ) + "Depth / found duplicates:"@ + seq!['\n'] + count_lines(
            self.duplicate_states@,
            self.duplicate_states@.len(),
        ) + "Depth / visited states:"@ + seq!['\n'] + count_lines(
            self.visited_states@,
            self.visited_states@.len(),
        )
    }

    /// The totals, then the counts at every depth.
    pub fn to_string(&self) -> (s: String)
        ensures
            s@ == self.spec_text(),
    {
        let mut s = String::new();
        push_chars(&mut s, &chars_of("States created total: "));
        push_chars(&mut s, &separated(self.total_created() as i128));
        push_char(&mut s, '\n');
        push_chars(&mut s, &chars_of("Reached duplicates total: "));
        push_chars(&mut s, &separated(self.total_duplicate() as i128));
        push_char(&mut s, '\n');
        push_chars(&mut s, &chars_of("States visited total: "));
        push_chars(&mut s, &separated(self.total_visited() as i128));
        push_char(&mut s, '\n');
        push_chars(&mut s, &chars_of("Depth / created states:"));
        push_char(&mut s, '\n');
        push_count_lines(&mut s, &self.created_states);
        push_chars(&mut s, &chars_of("Depth / found duplicates:"));
        push_char(&mut s, '\n');
        push_count_lines(&mut s, &self.duplicate_states);
        push_chars(&mut s, &chars_of("Depth / visited states:"));
        push_char(&mut s, '\n');
        push_count_lines(&mut s, &self.visited_states);
        proof {
            assert(s@ =~= self.spec_text());
        }
        s
    }

    pub open spec fn spec_summary(&self) -> Seq<char> {
        "created by depth: "@ + list_text(self.created_states@) + seq!['\n'] + "reached duplicates: "@
            + list_text(self.duplicate_states@) + seq!['\n'] + "visited by depth: "@ + list_text(
            self.visited_states@,
        ) + seq!['\n'] + "total created: "@ + separated_text(total(self.created_states@) as int)
            + seq!['\n'] + "total reached duplicates: "@ + separated_text(
            total(self.duplicate_states@) as int,
        ) + seq!['\n'] + "total visited: "@ + separated_text(total(self.visited_states@) as int)
            + seq!['\n']
    }

    /// The counts by depth as lists, then the totals.
    pub fn summary(&self) -> (s: String)
        ensures
            s@ == self.spec_summary(),
    {
        let mut s = String::new();
        push_chars(&mut s, &chars_of("created by depth: "));
        push_list(&mut s, &self.created_states);
        push_char(&mut s, '\n');
        push_chars(&mut s, &chars_of("reached duplicates: "));
        push_list(&mut s, &self.duplicate_states);
        push_char(&mut s, '\n');
        push_chars(&mut s, &chars_of("visited by depth: "));
        push_list(&mut s, &self.visited_states);
        push_char(&mut s, '\n');
        push_chars(&mut s, &chars_of("total created: "));
        push_chars(&mut s, &separated(self.total_created() as i128));
        push_char(&mut s, '\n');
        push_chars(&mut s, &chars_of("total reached duplicates: "));
        push_chars(&mut s, &separated(self.total_duplicate() as i128));
        push_char(&mut s, '\n');
        push_chars(&mut s, &chars_of("total visited: "));
        push_chars(&mut s, &separated(self.total_visited() as i128));
        push_char(&mut s, '\n');
        proof {
            assert(s@ =~= self.spec_summary());
        }
        s
    }
}

/// The cells boxes have to reach: the goals, or the remover.
pub open spec fn targets(map: &MapType) -> Seq<Pos> {
    match map {
        MapType::Goals(m) => m.goals@,
        MapType::Remover(m) => seq![m.remover],
    }
}

/// The distance from `p` to the nearest of `ts`, `u64::MAX` when there is none.
pub open spec fn nearest(p: Pos, ts: Seq<Pos>) -> nat
    decreases ts.len(),
{
    if ts.len() == 0 {
        u64::MAX as nat
    } else {
        let m = nearest(p, ts.drop_last());
        let d = p.spec_dist(ts.last()) as nat;
        if d < m {
            d
        } else {
            m
        }
    }
}

/// `a + b`, or `u64::MAX` when that does not fit.
pub open spec fn capped_add(a: nat, b: nat) -> nat {
    if a + b > u64::MAX {
        u64::MAX as nat
    } else {
        a + b
    }
}

/// The sum of the distances of the boxes to their nearest targets (capped at `u64::MAX`).
pub open spec fn push_estimate(ts: Seq<Pos>, boxes: Seq<Pos>) -> nat
    decreases boxes.len(),
{
    if boxes.len() == 0 {
        0
    } else {
        capped_add(push_estimate(ts, boxes.drop_last()), nearest(boxes.last(), ts))
    }
}

/// The distance from the player to the nearest box plus the push estimate.
pub open spec fn move_estimate(ts: Seq<Pos>, player: Pos, boxes: Seq<Pos>) -> nat {
    capped_add(nearest(player, boxes), push_estimate(ts, boxes))
}

/// The targets of a map.
fn map_targets(map: &MapType) -> (ts: Vec<Pos>)
    ensures
        ts@ == targets(map),
{
    match map {
        MapType::Goals(m) => crate::state::copy_positions(&m.goals),
        MapType::Remover(m) => {
            let mut ts = Vec::new();
            ts.push(m.remover);
            proof {
                assert(ts@ =~= seq![m.remover]);
            }
            ts
        },
    }
}

/// The distance from `p` to the nearest of `ts`.
fn nearest_dist(p: Pos, ts: &Vec<Pos>) -> (d: u64)
    ensures
        d == nearest(p, ts@),
{
    let mut min: u64 = u64::MAX;
    let mut i: usize = 0;
    while i < ts.len()
        invariant
            i <= ts@.len(),
            min == nearest(p, ts@.take(i as int)),
        decreases ts@.len() - i,
    {
        proof {
            assert(ts@.take(i as int + 1).drop_last() =~= ts@.take(i as int));
        }
        let dist = p.dist(ts[i]) as u64;
        if dist < min {
            min = dist;
        }
        i = i + 1;
    }
    proof {
        assert(ts@.take(ts@.len() as int) =~= ts@);
    }
    min
}

/// The push estimate of the boxes.
fn estimate_pushes(ts: &Vec<Pos>, boxes: &Vec<Pos>) -> (h: u64)
    ensures
        h == push_estimate(ts@, boxes@),
{
    let mut sum: u64 = 0;
    let mut i: usize = 0;
    while i < boxes.len()
        invariant
            i <= boxes@.len(),
            sum == push_estimate(ts@, boxes@.take(i as int)),
        decreases boxes@.len() - i,
    {
        proof {
            assert(boxes@.take(i as int + 1).drop_last() =~= boxes@.take(i as int));
        }
        sum = sum.saturating_add(nearest_dist(boxes[i], ts));
        i = i + 1;
    }
    proof {
        assert(boxes@.take(boxes@.len() as int) =~= boxes@);
    }
    sum
}

/// The estimate of the pushes still needed: every box has to get at least as far as its
/// nearest target.
pub fn heuristic_push(map: &MapType, state: &State) -> (h: u64)
    ensures
        h == push_estimate(targets(map), state.boxes@),
{
    let ts = map_targets(map);
    estimate_pushes(&ts, &state.boxes)
}

/// The estimate of the moves still needed: the pushes plus the way to the nearest box.
pub fn heuristic_move(map: &MapType, state: &State) -> (h: u64)
    ensures
        h == move_estimate(targets(map), state.player_pos, state.boxes@),
{
    let ts = map_targets(map);
    let closest_box = nearest_dist(state.player_pos, &state.boxes);
    closest_box.saturating_add(estimate_pushes(&ts, &state.boxes))
}

/// Every box stands on a goal.
pub fn is_solved(map: &MapType, state: &State) -> (b: bool)
    requires
        map.spec_grid().wf(),
        forall|i: int| 0 <= i < state.boxes@.len() ==> map.spec_grid().in_bounds(#[trigger] state.boxes@[i]),
    ensures
        b == solved(map.spec_grid(), state.boxes@.to_set()),
{
    let grid = map.grid();
    let mut i: usize = 0;
    while i < state.boxes.len()
        invariant
            grid@ == map.spec_grid(),
            grid.wf(),
            forall|j: int| 0 <= j < state.boxes@.len() ==> grid@.in_bounds(#[trigger] state.boxes@[j]),
            i <= state.boxes@.len(),
            forall|j: int| 0 <= j < i ==> grid@.at(#[trigger] state.boxes@[j]) == MapCell::Goal,
        decreases state.boxes@.len() - i,
    {
        assert(grid@.at(state.boxes@[i as int]) == grid.at(state.boxes@[i as int]));
        if *grid.get(state.boxes[i]) != MapCell::Goal {
            proof {
                assert(state.boxes@.to_set().contains(state.boxes@[i as int]));
            }
            return false;
        }
        i = i + 1;
    }
    proof {
        assert forall|b: Pos| state.boxes@.to_set().contains(b) implies map.spec_grid().at(b) == MapCell::Goal by {
            let j = choose|j: int| 0 <= j < state.boxes@.len() && state.boxes@[j] == b;
            assert(grid@.at(state.boxes@[j]) == MapCell::Goal);
        }
    }
    true
}

/// `dead_ends` is a grid of the size of the map.
pub open spec fn fits(map: &MapType, dead_ends: &Vec2d<bool>) -> bool {
    &&& dead_ends.wf()
    &&& dead_ends.rows == map.spec_grid().rows
    &&& dead_ends.cols == map.spec_grid().cols
}

/// One move of the player (a step or a push) leads from `from` to `to`.
pub open spec fn move_step(g: Grid<MapCell>, rem: Option<Pos>, from: State, to: State) -> bool {
    exists|m: Move|
        #[trigger] apply_move(g, rem, from.player_pos, from.boxes@.to_set(), m) == Some(
            (to.player_pos, to.boxes@.to_set()),
        )
}

/// What one move of the player in direction `d` leads to: a step, or a push when a box
/// stands in the way; `None` when the rules forbid it or the box would land on a dead end.
pub open spec fn move_result(
    g: Grid<MapCell>,
    rem: Option<Pos>,
    dead: Vec2d<bool>,
    s: State,
    d: Dir,
) -> Option<(Pos, Set<Pos>)> {
    let np = s.player_pos.step(d);
    let is_push = s.boxes@.contains(np);
    if is_push && (g.at(np) == MapCell::Wall || dead.at(np.step(d))) {
        None
    } else {
        apply_move(g, rem, s.player_pos, s.boxes@.to_set(), Move { dir: d, is_push })
    }
}

/// The results of the allowed moves in the first `k` directions (up, right, down, left).
pub open spec fn move_results(
    g: Grid<MapCell>,
    rem: Option<Pos>,
    dead: Vec2d<bool>,
    s: State,
    k: nat,
) -> Seq<(Pos, Set<Pos>)>
    decreases k,
{
    if k == 0 {
        Seq::empty()
    } else {
        let before = move_results(g, rem, dead, s, (k - 1) as nat);
        match move_result(g, rem, dead, s, crate::data::spec_dir(k - 1)) {
            Some(x) => before.push(x),
            None => before,
        }
    }
}

/// The player and the boxes of a state.
pub open spec fn placement(t: State) -> (Pos, Set<Pos>) {
    (t.player_pos, t.boxes@.to_set())
}

/// The states one move away, in the order up, right, down, left: a step onto a free cell,
/// or a push of a box onto a free cell that is not a dead end.
pub fn expand_move(map: &MapType, dead_ends: &Vec2d<bool>, state: &State) -> (r: Vec<State>)
    requires
        map.spec_grid().wf(),
        enclosed(map.spec_grid()),
        fits(map, dead_ends),
        state_on_grid(map.spec_grid(), *state),
        map.spec_grid().at(state.player_pos) != MapCell::Wall,
    ensures
        r@.map_values(|t: State| placement(t)) == move_results(
            map.spec_grid(),
            map.spec_remover(),
            *dead_ends,
            *state,
            4,
        ),
        forall|i: int| 0 <= i < r@.len() ==> move_step(map.spec_grid(), map.spec_remover(), *state, #[trigger] r@[i]),
{
    let ghost g = map.spec_grid();
    let ghost rem = map.spec_remover();
    let grid = map.grid();
    let remover = map.remover();
    let mut new_states: Vec<State> = Vec::new();
    proof {
        assert(!on_border(g, state.player_pos));
        assert(new_states@.map_values(|t: State| placement(t)) =~= move_results(g, rem, *dead_ends, *state, 0));
    }
    let mut k: usize = 0;
    while k < 4
        invariant
            g == map.spec_grid(),
            rem == map.spec_remover(),
            grid@ == g,
            remover == rem,
            grid.wf(),
            enclosed(g),
            dead_ends.wf(),
            dead_ends.same_dims(grid),
            state_on_grid(g, *state),
            !on_border(g, state.player_pos),
            k <= 4,
            new_states@.map_values(|t: State| placement(t)) == move_results(g, rem, *dead_ends, *state, k as nat),
            forall|i: int| 0 <= i < new_states@.len() ==> move_step(g, rem, *state, #[trigger] new_states@[i]),
        decreases 4 - k,
    {
        let dir = crate::data::dir_from_index(k);
        let new_pos = state.player_pos.add_dir(dir);
        let is_push = crate::state::contains_pos(&state.boxes, new_pos);
        let ghost before = new_states@;
        let allowed = if is_push {
            if *grid.get(new_pos) == MapCell::Wall {
                false
            } else {
                proof {
                    assert(state.boxes@.contains(new_pos));
                    let j = choose|j: int| 0 <= j < state.boxes@.len() && state.boxes@[j] == new_pos;
                    assert(g.in_bounds(state.boxes@[j]));
                    assert(g.at(new_pos) != MapCell::Wall);
                    assert(!on_border(g, new_pos));
                }
                let behind = new_pos.add_dir(dir);
                !*dead_ends.get(behind)
            }
        } else {
            true
        };
        let m = Move::new(dir, is_push);
        proof {
            assert(m == Move { dir: crate::data::spec_dir(k as int), is_push });
            assert(allowed == !(is_push && (g.at(new_pos) == MapCell::Wall || dead_ends.at(new_pos.step(dir)))));
        }
        if allowed {
            match try_apply_move(grid, remover, state, m) {
                Some(ns) => {
                    new_states.push(ns);
                    proof {
                        assert(move_step(g, rem, *state, ns));
                        assert forall|i: int| 0 <= i < new_states@.len() implies move_step(g, rem, *state, #[trigger] new_states@[i]) by {
                            if i < before.len() {
                                assert(new_states@[i] == before[i]);
                            }
                        }
                        assert(new_states@.map_values(|t: State| placement(t)) =~= before.map_values(|t: State| placement(t)).push(placement(ns)));
                    }
                },
                None => {},
            }
        }
        k = k + 1;
    }
    new_states
}

/// What the plain search needs of a map and its dead ends: an enclosed, consistent grid
/// and a dead-end grid of its size.
pub open spec fn map_ok(map: &MapType, dead_ends: &Vec2d<bool>) -> bool {
    &&& map.spec_grid().wf()
    &&& enclosed(map.spec_grid())
    &&& grid_ok(map.spec_grid(), map.spec_remover())
    &&& fits(map, dead_ends)
}

/// The state `s` comes from the push in direction `id.1` by the player at the queue entry
/// `id.0`.
pub open spec fn push_id_ok(g: Grid<MapCell>, rem: Option<Pos>, cur: StateView, tv: Seq<Pos>, s: StateView, id: (int, Dir)) -> bool {
    &&& 0 <= id.0 < tv.len()
    &&& push_at(g, rem, cur, s, tv[id.0], id.1)
}

/// No cell occurs twice in the queue.
#[verifier::opaque]
pub open spec fn cells_distinct(tv: Seq<Pos>) -> bool {
    forall|i: int, j: int| 0 <= i < j < tv.len() ==> #[trigger] tv[i] != #[trigger] tv[j]
}

/// No two states hold the same boxes.
#[verifier::opaque]
pub open spec fn states_distinct(r: Seq<State>) -> bool {
    forall|a: int, b: int| 0 <= a < b < r.len() ==> (#[trigger] r[a])@.1 != (#[trigger] r[b])@.1
}

proof fn lemma_cells_distinct_push(tv: Seq<Pos>, p: Pos)
    requires
        cells_distinct(tv),
        !tv.contains(p),
    ensures
        cells_distinct(tv.push(p)),
{
    reveal(cells_distinct);
    let t = tv.push(p);
    assert forall|i: int, j: int| 0 <= i < j < t.len() implies #[trigger] t[i] != #[trigger] t[j] by {
        assert(t[i] == tv[i]);
        if j < tv.len() {
            assert(t[j] == tv[j]);
        }
    }
}

/// A push from the queue entry `i` in direction `dir` that comes after every push of `ns`
/// (by the order of queue entry and direction) leaves boxes that no state of `ns` holds.
proof fn lemma_new_state_distinct(
    g: Grid<MapCell>,
    rem: Option<Pos>,
    cur: StateView,
    tv: Seq<Pos>,
    i: int,
    dir: Dir,
    ns: Seq<State>,
    ids: Seq<(int, Dir)>,
    e: State,
)
    requires
        cells_distinct(tv),
        0 <= i < tv.len(),
        push_at(g, rem, cur, e@, tv[i], dir),
        ids.len() == ns.len(),
        forall|a: int| 0 <= a < ns.len() ==> push_id_ok(g, rem, cur, tv, (#[trigger] ns[a])@, ids[a]),
        forall|a: int| 0 <= a < ids.len() ==> (#[trigger] ids[a]).0 * 4 + ids[a].1.spec_index() < i * 4 + dir.spec_index(),
        states_distinct(ns),
    ensures
        states_distinct(ns.push(e)),
{
    reveal(states_distinct);
    reveal(cells_distinct);
    let t = ns.push(e);
    assert forall|a: int, b: int| 0 <= a < b < t.len() implies (#[trigger] t[a])@.1 != (#[trigger] t[b])@.1 by {
        assert(t[a] == ns[a]);
        if b < ns.len() {
            assert(t[b] == ns[b]);
        } else {
            assert(t[b] == e);
            if t[a]@.1 == e@.1 {
                assert(push_id_ok(g, rem, cur, tv, ns[a]@, ids[a]));
                let j = ids[a].0;
                crate::solver::lemma_same_boxes_push(g, rem, cur, ns[a]@, e@, tv[j], ids[a].1, tv[i], dir);
                if j < i {
                    assert(tv[j] != tv[i]);
                } else if j > i {
                    assert(tv[i] != tv[j]);
                }
                assert(ids[a].0 * 4 + ids[a].1.spec_index() < i * 4 + dir.spec_index());
            }
        }
    }
}

/// The states one push away: the player walks around the boxes to a box and pushes it
/// onto a free cell that is not a dead end; the player then stands where the box was.
/// Every such push is among them, and each only once: no two hold the same boxes.
#[verifier::rlimit(40)]
#[verifier::spinoff_prover]
pub fn expand_push(map: &MapType, dead_ends: &Vec2d<bool>, cur: &State) -> (r: Vec<State>)
    requires
        map_ok(map, dead_ends),
        search_state(map.spec_grid(), cur@),
        cur.boxes@.len() <= MAX_BOXES,
    ensures
        forall|i: int|
            0 <= i < r@.len() ==> {
                let t = #[trigger] r@[i];
                &&& push_succ(map.spec_grid(), map.spec_remover(), cur@, t@)
                &&& search_state(map.spec_grid(), t@)
                &&& t.boxes@.len() <= cur.boxes@.len()
            },
        forall|x: Pos, d: Dir|
            #[trigger] can_push(map.spec_grid(), cur@, x, d) && !dead_ends.at(x.step(d).step(d)) ==> exists|i: int|
                0 <= i < r@.len() && push_at(map.spec_grid(), map.spec_remover(), cur@, r@[i]@, x, d) && r@[i].player_pos == x.step(d),
        forall|a: int, b: int| 0 <= a < b < r@.len() ==> (#[trigger] r@[a])@.1 != (#[trigger] r@[b])@.1,
{
    let ghost g = map.spec_grid();
    let ghost rem = map.spec_remover();
    let ghost bs = cur.boxes@.to_set();
    let grid = map.grid();
    let mut new_states: Vec<State> = Vec::new();
    proof {
        crate::state::lemma_sorted_distinct(cur.boxes@);
    }
    let box_grid = box_indices(grid, &cur.boxes);
    let mut reachable: Vec2d<bool> = grid.scratchpad_with_default(false);
    proof {
        reachable.lemma_idx(cur.player_pos);
        crate::solver::preprocessing::lemma_count_false_all(reachable.data@);
        crate::solver::preprocessing::lemma_count_true_set(reachable.data@, reachable.idx(cur.player_pos));
        lemma_connected_refl(g, bs, cur.player_pos);
        lemma_enclosed_player(g, bs, cur.player_pos);
    }
    let ghost r0 = reachable;
    reachable.set(cur.player_pos, true);
    let mut to_visit: Vec<Pos> = Vec::new();
    to_visit.push(cur.player_pos);
    let mut head: usize = 0;
    let ghost mut ids: Seq<(int, Dir)> = Seq::empty();
    proof {
        reveal(cells_distinct);
        reveal(states_distinct);
        assert(reachable.at(to_visit@[0]));
        assert(to_visit@[0] == cur.player_pos);
        assert forall|q: Pos| grid.in_bounds(q) && #[trigger] reachable.at(q) implies to_visit@.contains(q) by {
            if q != cur.player_pos {
                assert(reachable.at(q) == r0.at(q));
            }
        }
    }
    while head < to_visit.len()
        invariant
            g == map.spec_grid(),
            rem == map.spec_remover(),
            bs == cur.boxes@.to_set(),
            grid@ == g,
            map_ok(map, dead_ends),
            search_state(g, cur@),
            cur.boxes@.len() <= MAX_BOXES,
            crate::state::distinct(cur.boxes@),
            grid.wf(),
            box_grid.wf(),
            box_grid.same_dims(grid),
            forall|p: Pos| grid.in_bounds(p) ==> (#[trigger] box_grid.at(p) < 255 <==> cur.boxes@.contains(p)),
            forall|p: Pos| grid.in_bounds(p) && #[trigger] box_grid.at(p) < 255 ==> box_grid.at(p) < cur.boxes@.len() && cur.boxes@[box_grid.at(p) as int] == p,
            reachable.wf(),
            reachable.same_dims(grid),
            player_enclosed(g, bs, cur.player_pos),
            head <= to_visit@.len(),
            to_visit@.len() == crate::solver::preprocessing::count_true(reachable.data@),
            forall|i: int| 0 <= i < to_visit@.len() ==> grid.in_bounds(#[trigger] to_visit@[i]) && connected(g, bs, cur.player_pos, to_visit@[i]),
            forall|i: int|
                0 <= i < new_states@.len() ==> {
                    let t = #[trigger] new_states@[i];
                    &&& push_succ(g, rem, cur@, t@)
                    &&& search_state(g, t@)
                    &&& t.boxes@.len() <= cur.boxes@.len()
                },
            to_visit@.len() > 0,
            to_visit@[0] == cur.player_pos,
            forall|q: Pos| grid.in_bounds(q) && #[trigger] reachable.at(q) ==> to_visit@.contains(q),
            forall|i: int, q: Pos|
                #![trigger adj(to_visit@[i], q)]
                0 <= i < head && adj(to_visit@[i], q) && can_enter(g, bs, q) ==> reachable.at(q),
            forall|i: int, d: Dir|
                #![trigger can_push(g, cur@, to_visit@[i], d)]
                0 <= i < head && can_push(g, cur@, to_visit@[i], d) && !dead_ends.at(to_visit@[i].step(d).step(d))
                    ==> exists|j: int| 0 <= j < new_states@.len() && (push_at(g, rem, cur@, new_states@[j]@, to_visit@[i], d) && new_states@[j].player_pos == to_visit@[i].step(d)),
            forall|j: int| 0 <= j < to_visit@.len() ==> reachable.at(#[trigger] to_visit@[j]),
            cells_distinct(to_visit@),
            ids.len() == new_states@.len(),
            forall|a: int| 0 <= a < new_states@.len() ==> push_id_ok(g, rem, cur@, to_visit@, (#[trigger] new_states@[a])@, ids[a]),
            forall|a: int| 0 <= a < ids.len() ==> (#[trigger] ids[a]).0 * 4 + ids[a].1.spec_index() < head * 4,
            states_distinct(new_states@),
        decreases reachable.data@.len() - head,
    {
        proof {
            crate::solver::preprocessing::lemma_count_true_bound(reachable.data@);
        }
        let player_pos = to_visit[head];
        head = head + 1;
        proof {
            assert(connected(g, bs, cur.player_pos, player_pos));
            assert(!on_border(g, player_pos));
        }
        let mut k: usize = 0;
        while k < 4
            invariant
                g == map.spec_grid(),
                rem == map.spec_remover(),
                bs == cur.boxes@.to_set(),
                grid@ == g,
                map_ok(map, dead_ends),
                search_state(g, cur@),
                cur.boxes@.len() <= MAX_BOXES,
                crate::state::distinct(cur.boxes@),
                grid.wf(),
                box_grid.wf(),
                box_grid.same_dims(grid),
                forall|p: Pos| grid.in_bounds(p) ==> (#[trigger] box_grid.at(p) < 255 <==> cur.boxes@.contains(p)),
                forall|p: Pos| grid.in_bounds(p) && #[trigger] box_grid.at(p) < 255 ==> box_grid.at(p) < cur.boxes@.len() && cur.boxes@[box_grid.at(p) as int] == p,
                reachable.wf(),
                reachable.same_dims(grid),
                player_enclosed(g, bs, cur.player_pos),
                1 <= head <= to_visit@.len(),
                to_visit@.len() == crate::solver::preprocessing::count_true(reachable.data@),
                grid.in_bounds(player_pos),
                player_pos.is_inner(),
                !on_border(g, player_pos),
                connected(g, bs, cur.player_pos, player_pos),
                player_pos == to_visit@[head - 1],
                k <= 4,
                forall|i: int| 0 <= i < to_visit@.len() ==> grid.in_bounds(#[trigger] to_visit@[i]) && connected(g, bs, cur.player_pos, to_visit@[i]),
                forall|i: int|
                    0 <= i < new_states@.len() ==> {
                        let t = #[trigger] new_states@[i];
                        &&& push_succ(g, rem, cur@, t@)
                        &&& search_state(g, t@)
                        &&& t.boxes@.len() <= cur.boxes@.len()
                    },
                to_visit@[0] == cur.player_pos,
                forall|q: Pos| grid.in_bounds(q) && #[trigger] reachable.at(q) ==> to_visit@.contains(q),
                forall|i: int, q: Pos|
                    #![trigger adj(to_visit@[i], q)]
                    0 <= i < head - 1 && adj(to_visit@[i], q) && can_enter(g, bs, q) ==> reachable.at(q),
                forall|i: int, d: Dir|
                    #![trigger can_push(g, cur@, to_visit@[i], d)]
                    0 <= i < head - 1 && can_push(g, cur@, to_visit@[i], d) && !dead_ends.at(to_visit@[i].step(d).step(d))
                        ==> exists|j: int| 0 <= j < new_states@.len() && (push_at(g, rem, cur@, new_states@[j]@, to_visit@[i], d) && new_states@[j].player_pos == to_visit@[i].step(d)),
                forall|d: Dir|
                    d.spec_index() < k && #[trigger] can_enter(g, bs, player_pos.step(d)) ==> reachable.at(player_pos.step(d)),
                forall|d: Dir|
                    d.spec_index() < k && #[trigger] can_push(g, cur@, player_pos, d) && !dead_ends.at(player_pos.step(d).step(d))
                        ==> exists|j: int| 0 <= j < new_states@.len() && (push_at(g, rem, cur@, new_states@[j]@, player_pos, d) && new_states@[j].player_pos == player_pos.step(d)),
                forall|j: int| 0 <= j < to_visit@.len() ==> reachable.at(#[trigger] to_visit@[j]),
                cells_distinct(to_visit@),
                ids.len() == new_states@.len(),
                forall|a: int| 0 <= a < new_states@.len() ==> push_id_ok(g, rem, cur@, to_visit@, (#[trigger] new_states@[a])@, ids[a]),
                forall|a: int| 0 <= a < ids.len() ==> (#[trigger] ids[a]).0 * 4 + ids[a].1.spec_index() < (head - 1) * 4 + k,
                states_distinct(new_states@),
            decreases 4 - k,
        {
            let dir = crate::data::dir_from_index(k);
            let new_player_pos = player_pos.add_dir(dir);
            proof {
                crate::reach::lemma_adj_step(player_pos, dir);
            }
            let ghost ns0 = new_states@;
            let ghost tv0 = to_visit@;
            let ghost rv0 = reachable;
            let box_index = *box_grid.get(new_player_pos);
            if box_index < 255 {
                // the player pushes the box at `new_player_pos`
                proof {
                    assert(cur.boxes@.contains(new_player_pos));
                    let bi = box_index as int;
                    assert(cur.boxes@[bi] == new_player_pos);
                    assert(g.in_bounds(cur.boxes@[bi]) && g.at(cur.boxes@[bi]) != MapCell::Wall);
                    assert(!on_border(g, new_player_pos));
                    assert(bs.contains(new_player_pos));
                }
                let push_dest = new_player_pos.add_dir(dir);
                let dest_free = *box_grid.get(push_dest) == 255 && *grid.get(push_dest) != MapCell::Wall;
                proof {
                    if can_push(g, cur@, player_pos, dir) {
                        assert(!cur.boxes@.contains(push_dest));
                        assert(dest_free);
                    }
                }
                if dest_free && !*dead_ends.get(push_dest) {
                    proof {
                        assert(!cur.boxes@.contains(push_dest));
                    }
                    let new_boxes = push_box(map, &cur.boxes, box_index as usize, push_dest);
                    let ghost nbs = new_boxes@.to_set();
                    proof {
                        lemma_connected_refl(g, nbs, new_player_pos);
                    }
                    let new_state = State::new(new_player_pos, new_boxes);
                    proof {
                        let ns = new_state@;
                        assert(ns.1.to_set() == nbs);
                        assert(push_at(g, rem, cur@, ns, player_pos, dir));
                        assert(push_succ(g, rem, cur@, ns));
                        assert(!nbs.contains(new_player_pos));
                        assert(!ns.1.contains(ns.0)) by {
                            if ns.1.contains(ns.0) {
                                assert(nbs.contains(ns.0));
                            }
                        }
                        assert forall|i: int| 0 <= i < ns.1.len() implies g.in_bounds(#[trigger] ns.1[i]) && g.at(ns.1[i]) != MapCell::Wall && g.at(ns.1[i]) != MapCell::Remover by {
                            assert(nbs.contains(ns.1[i]));
                            let k2 = choose|k2: int| 0 <= k2 < new_boxes@.len() && new_boxes@[k2] == ns.1[i];
                            if ns.1[i] != push_dest {
                                assert(cur.boxes@.contains(ns.1[i]));
                                let j = choose|j: int| 0 <= j < cur.boxes@.len() && cur.boxes@[j] == ns.1[i];
                                assert(g.in_bounds(cur.boxes@[j]));
                            }
                        }
                        assert(search_state(g, ns));
                        lemma_new_state_distinct(g, rem, cur@, to_visit@, head - 1, dir, new_states@, ids, new_state);
                    }
                    new_states.push(new_state);
                    proof {
                        assert(new_states@ == ns0.push(new_state));
                        let ids0 = ids;
                        ids = ids.push(((head - 1) as int, dir));
                        assert forall|a: int| 0 <= a < new_states@.len() implies push_id_ok(g, rem, cur@, to_visit@, (#[trigger] new_states@[a])@, ids[a]) by {
                            if a < ns0.len() {
                                assert(new_states@[a] == ns0[a]);
                                assert(ids[a] == ids0[a]);
                            } else {
                                assert(new_states@[a] == new_state);
                                assert(push_at(g, rem, cur@, new_state@, player_pos, dir));
                            }
                        }
                        assert forall|a: int| 0 <= a < ids.len() implies (#[trigger] ids[a]).0 * 4 + ids[a].1.spec_index() < (head - 1) * 4 + k + 1 by {
                            if a < ids0.len() {
                                assert(ids[a] == ids0[a]);
                            }
                        }
                        assert forall|i: int|
                            0 <= i < new_states@.len() implies {
                                let t = #[trigger] new_states@[i];
                                &&& push_succ(g, rem, cur@, t@)
                                &&& search_state(g, t@)
                                &&& t.boxes@.len() <= cur.boxes@.len()
                            } by {
                            if i < ns0.len() {
                                assert(new_states@[i] == ns0[i]);
                            }
                        }
                        let last = ns0.len() as int;
                        assert(new_states@[last] == new_state);
                        assert forall|i: int, d: Dir|
                            #![trigger can_push(g, cur@, to_visit@[i], d)]
                            0 <= i < head - 1 && can_push(g, cur@, to_visit@[i], d) && !dead_ends.at(to_visit@[i].step(d).step(d))
                                implies exists|j: int| 0 <= j < new_states@.len() && (push_at(g, rem, cur@, new_states@[j]@, to_visit@[i], d) && new_states@[j].player_pos == to_visit@[i].step(d)) by {
                            let j = choose|j: int| 0 <= j < ns0.len() && (push_at(g, rem, cur@, ns0[j]@, to_visit@[i], d) && ns0[j].player_pos == to_visit@[i].step(d));
                            assert(new_states@[j] == ns0[j]);
                        }
                        assert forall|d: Dir|
                            d.spec_index() < k + 1 && #[trigger] can_push(g, cur@, player_pos, d) && !dead_ends.at(player_pos.step(d).step(d))
                                implies exists|j: int| 0 <= j < new_states@.len() && (push_at(g, rem, cur@, new_states@[j]@, player_pos, d) && new_states@[j].player_pos == player_pos.step(d)) by {
                            if d.spec_index() < k {
                                let j = choose|j: int| 0 <= j < ns0.len() && (push_at(g, rem, cur@, ns0[j]@, player_pos, d) && ns0[j].player_pos == player_pos.step(d));
                                assert(new_states@[j] == ns0[j]);
                            } else {
                                assert(d == dir);
                                assert(push_at(g, rem, cur@, new_states@[last]@, player_pos, d) && new_states@[last].player_pos == player_pos.step(d));
                            }
                        }
                    }
                } else {
                    proof {
                        assert forall|d: Dir|
                            d.spec_index() < k + 1 && #[trigger] can_push(g, cur@, player_pos, d) && !dead_ends.at(player_pos.step(d).step(d))
                                implies exists|j: int| 0 <= j < new_states@.len() && (push_at(g, rem, cur@, new_states@[j]@, player_pos, d) && new_states@[j].player_pos == player_pos.step(d)) by {
                            if d.spec_index() == k {
                                assert(d == dir);
                            }
                        }
                    }
                }
                proof {
                    assert forall|d: Dir|
                        d.spec_index() < k + 1 && #[trigger] can_enter(g, bs, player_pos.step(d)) implies reachable.at(player_pos.step(d)) by {
                        if d.spec_index() == k {
                            assert(d == dir);
                        }
                    }
                }
            } else if *grid.get(new_player_pos) != MapCell::Wall && !*reachable.get(new_player_pos) {
                proof {
                    assert(!cur.boxes@.contains(new_player_pos));
                    assert(can_enter(g, bs, new_player_pos));
                    lemma_connected_step(g, bs, cur.player_pos, player_pos, new_player_pos);
                    reachable.lemma_idx(new_player_pos);
                    crate::solver::preprocessing::lemma_count_true_set(reachable.data@, reachable.idx(new_player_pos));
                }
                reachable.set(new_player_pos, true);
                to_visit.push(new_player_pos);
                proof {
                    assert forall|i: int| 0 <= i < to_visit@.len() implies grid.in_bounds(#[trigger] to_visit@[i]) && connected(g, bs, cur.player_pos, to_visit@[i]) by {
                        if i < tv0.len() {
                            assert(to_visit@[i] == tv0[i]);
                        }
                    }
                    assert(to_visit@[tv0.len() as int] == new_player_pos);
                    assert(to_visit@ == tv0.push(new_player_pos));
                    assert(!tv0.contains(new_player_pos)) by {
                        if tv0.contains(new_player_pos) {
                            let jj = choose|jj: int| 0 <= jj < tv0.len() && tv0[jj] == new_player_pos;
                            assert(rv0.at(tv0[jj]));
                        }
                    }
                    lemma_cells_distinct_push(tv0, new_player_pos);
                    assert forall|jj: int| 0 <= jj < to_visit@.len() implies reachable.at(#[trigger] to_visit@[jj]) by {
                        if jj < tv0.len() {
                            assert(to_visit@[jj] == tv0[jj]);
                            assert(rv0.at(tv0[jj]));
                            if tv0[jj] != new_player_pos {
                                assert(reachable.at(tv0[jj]) == rv0.at(tv0[jj]));
                            }
                        }
                    }
                    assert forall|a: int| 0 <= a < new_states@.len() implies push_id_ok(g, rem, cur@, to_visit@, (#[trigger] new_states@[a])@, ids[a]) by {
                        assert(push_id_ok(g, rem, cur@, tv0, new_states@[a]@, ids[a]));
                        assert(to_visit@[ids[a].0] == tv0[ids[a].0]);
                    }
                    assert forall|q: Pos| grid.in_bounds(q) && #[trigger] reachable.at(q) implies to_visit@.contains(q) by {
                        if q != new_player_pos {
                            assert(reachable.at(q) == rv0.at(q));
                            assert(tv0.contains(q));
                            let i = choose|i: int| 0 <= i < tv0.len() && tv0[i] == q;
                            assert(to_visit@[i] == q);
                        }
                    }
                    assert forall|i: int, q: Pos|
                        #![trigger adj(to_visit@[i], q)]
                        0 <= i < head - 1 && adj(to_visit@[i], q) && can_enter(g, bs, q) implies reachable.at(q) by {
                        assert(to_visit@[i] == tv0[i]);
                        assert(rv0.at(q));
                        if q != new_player_pos {
                            assert(reachable.at(q) == rv0.at(q));
                        }
                    }
                    assert forall|i: int, d: Dir|
                        #![trigger can_push(g, cur@, to_visit@[i], d)]
                        0 <= i < head - 1 && can_push(g, cur@, to_visit@[i], d) && !dead_ends.at(to_visit@[i].step(d).step(d))
                            implies exists|j: int| 0 <= j < new_states@.len() && (push_at(g, rem, cur@, new_states@[j]@, to_visit@[i], d) && new_states@[j].player_pos == to_visit@[i].step(d)) by {
                        assert(to_visit@[i] == tv0[i]);
                    }
                    assert forall|d: Dir|
                        d.spec_index() < k + 1 && #[trigger] can_enter(g, bs, player_pos.step(d)) implies reachable.at(player_pos.step(d)) by {
                        if d.spec_index() < k {
                            assert(rv0.at(player_pos.step(d)));
                            if player_pos.step(d) != new_player_pos {
                                assert(reachable.at(player_pos.step(d)) == rv0.at(player_pos.step(d)));
                            }
                        } else {
                            assert(d == dir);
                        }
                    }
                    assert forall|d: Dir|
                        d.spec_index() < k + 1 && #[trigger] can_push(g, cur@, player_pos, d) && !dead_ends.at(player_pos.step(d).step(d))
                            implies exists|j: int| 0 <= j < new_states@.len() && (push_at(g, rem, cur@, new_states@[j]@, player_pos, d) && new_states@[j].player_pos == player_pos.step(d)) by {
                        if d.spec_index() == k {
                            assert(d == dir);
                            assert(!bs.contains(new_player_pos));
                        }
                    }
                }
            } else {
                proof {
                    assert(!cur.boxes@.contains(new_player_pos));
                    assert forall|d: Dir|
                        d.spec_index() < k + 1 && #[trigger] can_enter(g, bs, player_pos.step(d)) implies reachable.at(player_pos.step(d)) by {
                        if d.spec_index() == k {
                            assert(d == dir);
                        }
                    }
                    assert forall|d: Dir|
                        d.spec_index() < k + 1 && #[trigger] can_push(g, cur@, player_pos, d) && !dead_ends.at(player_pos.step(d).step(d))
                            implies exists|j: int| 0 <= j < new_states@.len() && (push_at(g, rem, cur@, new_states@[j]@, player_pos, d) && new_states@[j].player_pos == player_pos.step(d)) by {
                        if d.spec_index() == k {
                            assert(d == dir);
                            assert(!bs.contains(new_player_pos));
                        }
                    }
                }
            }
            k = k + 1;
        }
        proof {
            assert forall|i: int, q: Pos|
                #![trigger adj(to_visit@[i], q)]
                0 <= i < head && adj(to_visit@[i], q) && can_enter(g, bs, q) implies reachable.at(q) by {
                if i == head - 1 {
                    crate::reach::lemma_adj_dir(player_pos, q);
                    let idx: int = if q.r + 1 == player_pos.r {
                        0
                    } else if q.c == player_pos.c + 1 {
                        1
                    } else if q.r == player_pos.r + 1 {
                        2
                    } else {
                        3
                    };
                    let d = crate::data::spec_dir(idx);
                    assert(q == player_pos.step(d));
                    assert(can_enter(g, bs, player_pos.step(d)));
                }
            }
            assert forall|i: int, d: Dir|
                #![trigger can_push(g, cur@, to_visit@[i], d)]
                0 <= i < head && can_push(g, cur@, to_visit@[i], d) && !dead_ends.at(to_visit@[i].step(d).step(d))
                    implies exists|j: int| 0 <= j < new_states@.len() && (push_at(g, rem, cur@, new_states@[j]@, to_visit@[i], d) && new_states@[j].player_pos == to_visit@[i].step(d)) by {
                if i == head - 1 {
                    assert(d.spec_index() < 4);
                    assert(can_push(g, cur@, player_pos, d));
                }
            }
        }
    }
    proof {
        let sv = to_visit@.to_set();
        assert forall|p: Pos, q: Pos|
            #![trigger sv.contains(p), adj(p, q)]
            sv.contains(p) && adj(p, q) && can_enter(g, bs, q) implies sv.contains(q) by {
            assert(to_visit@.contains(p));
            let i = choose|i: int| 0 <= i < to_visit@.len() && to_visit@[i] == p;
            assert(adj(to_visit@[i], q));
            assert(reachable.at(q));
            assert(to_visit@.contains(q));
        }
        assert(sv.contains(cur.player_pos)) by {
            assert(to_visit@.contains(to_visit@[0]));
        }
        assert forall|x: Pos, d: Dir|
            #[trigger] can_push(g, cur@, x, d) && !dead_ends.at(x.step(d).step(d)) implies exists|i: int|
                0 <= i < new_states@.len() && (push_at(g, rem, cur@, new_states@[i]@, x, d) && new_states@[i].player_pos == x.step(d)) by {
            lemma_closed_contains(g, bs, sv, cur.player_pos, x);
            assert(to_visit@.contains(x));
            let i = choose|i: int| 0 <= i < to_visit@.len() && to_visit@[i] == x;
            assert(can_push(g, cur@, to_visit@[i], d));
        }
        reveal(states_distinct);
    }
    new_states
}

/// A state the search reached, with the node it was reached from and the number of
/// pushes that led to it.
pub struct Node {
    pub state: State,
    pub parent: Option<usize>,
    pub dist: usize,
}

/// The state at `i + 1` of `path` follows from the state at `i` by a push.
pub open spec fn linked(g: Grid<MapCell>, rem: Option<Pos>, path: Seq<State>, i: int) -> bool {
    push_succ(g, rem, path[i]@, path[i + 1]@)
}

/// `path` solves the level from `init`: it starts there, every state follows from the
/// one before it by a push, and in the last state every box is on a goal.
pub open spec fn push_solution(g: Grid<MapCell>, rem: Option<Pos>, init: StateView, path: Seq<State>) -> bool {
    &&& path.len() > 0
    &&& path[0]@ == init
    &&& forall|i: int| 0 <= i < path.len() - 1 ==> #[trigger] linked(g, rem, path, i)
    &&& solved(g, path.last().boxes@.to_set())
}

/// The node at `i` names an earlier node whose state one push turns into its own.
pub open spec fn node_linked(g: Grid<MapCell>, rem: Option<Pos>, nodes: Seq<Node>, i: int) -> bool {
    match nodes[i].parent {
        Some(j) => j < i && push_succ(g, rem, nodes[j as int].state@, nodes[i].state@),
        None => false,
    }
}

/// The nodes form a tree rooted at the first node, which holds `init`: every other node
/// names an earlier node whose state one push turns into its own.
pub open spec fn tree_ok(g: Grid<MapCell>, rem: Option<Pos>, init: StateView, nodes: Seq<Node>) -> bool {
    &&& nodes.len() > 0
    &&& nodes[0].state@ == init
    &&& nodes[0].parent is None
    &&& forall|i: int| 0 < i < nodes.len() ==> #[trigger] node_linked(g, rem, nodes, i)
    &&& forall|i: int|
        0 <= i < nodes.len() ==> search_state(g, (#[trigger] nodes[i]).state@) && nodes[i].state.boxes@.len()
            <= MAX_BOXES
}

/// `chain` follows the links of the nodes: each entry names the node the one before it was
/// reached from.
pub open spec fn chain_link(nodes: Seq<Node>, chain: Seq<usize>, t: int) -> bool {
    nodes[chain[t] as int].parent == Some(chain[t + 1])
}

/// The states from the root of the tree to the node `last`.
fn backtrack_path(
    nodes: &Vec<Node>,
    last: usize,
    Ghost(g): Ghost<Grid<MapCell>>,
    Ghost(rem): Ghost<Option<Pos>>,
    Ghost(init): Ghost<StateView>,
) -> (path: Vec<State>)
    requires
        tree_ok(g, rem, init, nodes@),
        dists_ok(nodes@),
        last < nodes@.len(),
    ensures
        path@.len() == nodes@[last as int].dist + 1,
        path@[0]@ == init,
        path@.last()@ == nodes@[last as int].state@,
        forall|i: int| 0 <= i < path@.len() - 1 ==> #[trigger] linked(g, rem, path@, i),
        last == 0 ==> path@.len() == 1,
{
    let mut chain: Vec<usize> = Vec::new();
    chain.push(last);
    let mut cur = last;
    while nodes[cur].parent.is_some()
        invariant
            tree_ok(g, rem, init, nodes@),
            cur < nodes@.len(),
            chain@.len() >= 1,
            chain@[0] == last,
            chain@.last() == cur,
            last == 0 ==> chain@.len() == 1,
            dists_ok(nodes@),
            nodes@[cur as int].dist + chain@.len() - 1 == nodes@[last as int].dist,
            forall|t: int| 0 <= t < chain@.len() ==> #[trigger] chain@[t] < nodes@.len(),
            forall|t: int| 0 <= t < chain@.len() - 1 ==> #[trigger] chain_link(nodes@, chain@, t),
        decreases cur,
    {
        let p = nodes[cur].parent.unwrap();
        proof {
            assert(cur > 0);
            assert(node_linked(g, rem, nodes@, cur as int));
            assert(dist_linked(nodes@, cur as int));
        }
        let ghost c0 = chain@;
        chain.push(p);
        proof {
            assert forall|t: int| 0 <= t < chain@.len() - 1 implies #[trigger] chain_link(nodes@, chain@, t) by {
                if t < c0.len() - 1 {
                    assert(chain_link(nodes@, c0, t));
                }
            }
        }
        cur = p;
    }
    proof {
        if cur != 0 {
            assert(node_linked(g, rem, nodes@, cur as int));
        }
    }
    let n = chain.len();
    assert(n == nodes@[last as int].dist + 1);
    let mut path: Vec<State> = Vec::new();
    let mut t = n;
    while t > 0
        invariant
            tree_ok(g, rem, init, nodes@),
            n == chain@.len(),
            t <= n,
            path@.len() == n - t,
            forall|s: int| 0 <= s < chain@.len() ==> #[trigger] chain@[s] < nodes@.len(),
            forall|i: int| 0 <= i < path@.len() ==> (#[trigger] path@[i])@ == nodes@[chain@[n - 1 - i] as int].state@,
        decreases t,
    {
        t = t - 1;
        let st = nodes[chain[t]].state.clone();
        let ghost p0 = path@;
        path.push(st);
        proof {
            assert forall|i: int| 0 <= i < path@.len() implies (#[trigger] path@[i])@ == nodes@[chain@[n - 1 - i] as int].state@ by {
                if i < p0.len() {
                    assert(path@[i] == p0[i]);
                }
            }
        }
    }
    proof {
        assert(path@[0]@ == nodes@[chain@[n - 1] as int].state@);
        assert(path@[n - 1]@ == nodes@[chain@[0] as int].state@);
        assert forall|i: int| 0 <= i < path@.len() - 1 implies #[trigger] linked(g, rem, path@, i) by {
            let t2 = n - 2 - i;
            assert(chain_link(nodes@, chain@, t2));
            let child = chain@[t2] as int;
            assert(child > 0) by {
                if child == 0 {
                    assert(nodes@[0].parent is None);
                }
            }
            assert(node_linked(g, rem, nodes@, child));
            assert(path@[i]@ == nodes@[chain@[n - 1 - i] as int].state@);
            assert(path@[i + 1]@ == nodes@[chain@[n - 1 - (i + 1)] as int].state@);
        }
    }
    path
}

/// Whether `closed` holds `s`.
fn closed_contains(closed: &Vec<State>, s: &State) -> (b: bool)
    ensures
        b == exists|i: int| 0 <= i < closed@.len() && (#[trigger] closed@[i])@ == s@,
{
    let mut i: usize = 0;
    while i < closed.len()
        invariant
            i <= closed@.len(),
            forall|j: int| 0 <= j < i ==> (#[trigger] closed@[j])@ != s@,
        decreases closed@.len() - i,
    {
        if closed[i].same(s) {
            return true;
        }
        i = i + 1;
    }
    false
}

proof fn lemma_heap_ok_insert(h: vstd::multiset::Multiset<(u64, u64, usize)>, x: (u64, u64, usize), n: nat)
    requires
        heap_ok(h, n),
        x.2 == n,
    ensures
        heap_ok(h.insert(x), n + 1),
{
    broadcast use vstd::multiset::group_multiset_axioms;

    assert forall|y: (u64, u64, usize)| #[trigger] h.insert(x).contains(y) implies y.2 < n + 1 by {
        if y != x {
            assert(h.contains(y));
        }
    }
}

/// `to` follows from `from` by a push the plain search makes: onto a cell that is not to
/// be avoided, the player then standing where the box was and the boxes in order.
pub open spec fn plain_step(g: Grid<MapCell>, rem: Option<Pos>, avoid: Set<Pos>, from: StateView, to: StateView) -> bool {
    exists|x: Pos, d: Dir|
        #[trigger] push_at(g, rem, from, to, x, d) && !avoid.contains(x.step(d).step(d)) && to.0 == x.step(d) && sorted(to.1)
}

/// The state at `i + 1` of `path` follows from the state at `i` by a push of the plain search.
pub open spec fn plain_linked(g: Grid<MapCell>, rem: Option<Pos>, avoid: Set<Pos>, path: Seq<StateView>, i: int) -> bool {
    plain_step(g, rem, avoid, path[i], path[i + 1])
}

/// Every state of `path` follows from the one before it by a push of the plain search.
pub open spec fn plain_path(g: Grid<MapCell>, rem: Option<Pos>, avoid: Set<Pos>, path: Seq<StateView>) -> bool {
    &&& path.len() > 0
    &&& forall|i: int| 0 <= i < path.len() - 1 ==> #[trigger] plain_linked(g, rem, avoid, path, i)
}

/// No sequence of pushes of the plain search leads from `init` to a solved state.
pub open spec fn no_plain_solution(g: Grid<MapCell>, rem: Option<Pos>, avoid: Set<Pos>, init: StateView) -> bool {
    forall|path: Seq<StateView>|
        #[trigger] plain_path(g, rem, avoid, path) && path[0] == init ==> !solved(g, path.last().1.to_set())
}

/// The cells marked in `dead`.
pub open spec fn dead_set(dead: Vec2d<bool>) -> Set<Pos> {
    Set::new(|p: Pos| dead.at(p))
}

/// `v` is one of the closed states.
pub open spec fn in_closed(cl: Seq<State>, v: StateView) -> bool {
    exists|j: int| 0 <= j < cl.len() && (#[trigger] cl[j])@ == v
}

/// Some node holds the state `v`.
pub open spec fn created(nodes: Seq<Node>, v: StateView) -> bool {
    exists|i: int| 0 <= i < nodes.len() && (#[trigger] nodes[i]).state@ == v
}

/// The queue holds an entry for the node `i`.
pub open spec fn pending(h: Multiset<(u64, u64, usize)>, i: int) -> bool {
    exists|e: (u64, u64, usize)| #[trigger] h.contains(e) && e.2 == i
}

/// The node `i` still waits in the queue, or its state has been closed.
pub open spec fn settled(h: Multiset<(u64, u64, usize)>, cl: Seq<State>, nodes: Seq<Node>, i: int) -> bool {
    pending(h, i) || in_closed(cl, nodes[i].state@)
}

/// The state `v` is not solved and every state one plain push away has a node.
pub open spec fn expanded(g: Grid<MapCell>, rem: Option<Pos>, avoid: Set<Pos>, nodes: Seq<Node>, v: StateView) -> bool {
    &&& !solved(g, v.1.to_set())
    &&& forall|t: StateView| #[trigger] plain_step(g, rem, avoid, v, t) ==> created(nodes, t)
}

proof fn lemma_settled_after_pop(h0: Multiset<(u64, u64, usize)>, item: (u64, u64, usize), cl: Seq<State>, nodes: Seq<Node>)
    requires
        h0.contains(item),
        forall|i: int| 0 <= i < nodes.len() ==> #[trigger] settled(h0, cl, nodes, i),
    ensures
        forall|i: int| 0 <= i < nodes.len() && i != item.2 ==> #[trigger] settled(h0.remove(item), cl, nodes, i),
{
    broadcast use vstd::multiset::group_multiset_axioms;

    assert forall|i: int| 0 <= i < nodes.len() && i != item.2 implies #[trigger] settled(h0.remove(item), cl, nodes, i) by {
        assert(settled(h0, cl, nodes, i));
        if pending(h0, i) {
            let e = choose|e: (u64, u64, usize)| #[trigger] h0.contains(e) && e.2 == i;
            assert(e != item);
            assert(h0.remove(item).contains(e));
        }
    }
}

proof fn lemma_settled_after_push(
    h0: Multiset<(u64, u64, usize)>,
    e: (u64, u64, usize),
    cl: Seq<State>,
    nodes0: Seq<Node>,
    nd: Node,
    idx: int,
)
    requires
        e.2 == nodes0.len(),
        forall|i: int| 0 <= i < nodes0.len() && i != idx ==> #[trigger] settled(h0, cl, nodes0, i),
    ensures
        forall|i: int| 0 <= i < nodes0.len() + 1 && i != idx ==> #[trigger] settled(h0.insert(e), cl, nodes0.push(nd), i),
{
    broadcast use vstd::multiset::group_multiset_axioms;

    let nodes1 = nodes0.push(nd);
    assert forall|i: int| 0 <= i < nodes0.len() + 1 && i != idx implies #[trigger] settled(h0.insert(e), cl, nodes1, i) by {
        if i < nodes0.len() {
            assert(settled(h0, cl, nodes0, i));
            assert(nodes1[i] == nodes0[i]);
            if pending(h0, i) {
                let e2 = choose|e2: (u64, u64, usize)| #[trigger] h0.contains(e2) && e2.2 == i;
                assert(h0.insert(e).contains(e2));
            }
        } else {
            assert(h0.insert(e).contains(e));
        }
    }
}

proof fn lemma_expanded_after_push(g: Grid<MapCell>, rem: Option<Pos>, avoid: Set<Pos>, cl: Seq<State>, nodes0: Seq<Node>, nd: Node)
    requires
        forall|v: StateView| #[trigger] in_closed(cl, v) ==> expanded(g, rem, avoid, nodes0, v),
    ensures
        forall|v: StateView| #[trigger] in_closed(cl, v) ==> expanded(g, rem, avoid, nodes0.push(nd), v),
{
    let nodes1 = nodes0.push(nd);
    assert forall|v: StateView| #[trigger] in_closed(cl, v) implies expanded(g, rem, avoid, nodes1, v) by {
        assert(expanded(g, rem, avoid, nodes0, v));
        assert forall|t: StateView| #[trigger] plain_step(g, rem, avoid, v, t) implies created(nodes1, t) by {
            assert(created(nodes0, t));
            let i = choose|i: int| 0 <= i < nodes0.len() && (#[trigger] nodes0[i]).state@ == t;
            assert(nodes1[i] == nodes0[i]);
        }
    }
}

proof fn lemma_close(
    g: Grid<MapCell>,
    rem: Option<Pos>,
    avoid: Set<Pos>,
    h: Multiset<(u64, u64, usize)>,
    cl: Seq<State>,
    c: State,
    nodes: Seq<Node>,
    idx: int,
)
    requires
        0 <= idx < nodes.len(),
        c@ == nodes[idx].state@,
        forall|i: int| 0 <= i < nodes.len() && i != idx ==> #[trigger] settled(h, cl, nodes, i),
        forall|v: StateView| #[trigger] in_closed(cl, v) ==> expanded(g, rem, avoid, nodes, v),
        expanded(g, rem, avoid, nodes, c@),
    ensures
        forall|i: int| 0 <= i < nodes.len() ==> #[trigger] settled(h, cl.push(c), nodes, i),
        forall|v: StateView| #[trigger] in_closed(cl.push(c), v) ==> expanded(g, rem, avoid, nodes, v),
{
    let cl1 = cl.push(c);
    assert forall|i: int| 0 <= i < nodes.len() implies #[trigger] settled(h, cl1, nodes, i) by {
        if i == idx {
            assert(cl1[cl.len() as int] == c);
        } else {
            assert(settled(h, cl, nodes, i));
            if in_closed(cl, nodes[i].state@) {
                let j = choose|j: int| 0 <= j < cl.len() && (#[trigger] cl[j])@ == nodes[i].state@;
                assert(cl1[j] == cl[j]);
            }
        }
    }
    assert forall|v: StateView| #[trigger] in_closed(cl1, v) implies expanded(g, rem, avoid, nodes, v) by {
        let j = choose|j: int| 0 <= j < cl1.len() && (#[trigger] cl1[j])@ == v;
        if j < cl.len() {
            assert(cl1[j] == cl[j]);
            assert(in_closed(cl, v));
        }
    }
}

/// Every state a plain path from a member of a set closed under plain pushes reaches is a member.
proof fn lemma_closed_paths(g: Grid<MapCell>, rem: Option<Pos>, avoid: Set<Pos>, cl: Set<StateView>, path: Seq<StateView>, i: int)
    requires
        plain_path(g, rem, avoid, path),
        cl.contains(path[0]),
        forall|s: StateView, t: StateView|
            #![trigger cl.contains(s), plain_step(g, rem, avoid, s, t)]
            cl.contains(s) && plain_step(g, rem, avoid, s, t) ==> cl.contains(t),
        0 <= i < path.len(),
    ensures
        cl.contains(path[i]),
    decreases i,
{
    if i > 0 {
        lemma_closed_paths(g, rem, avoid, cl, path, i - 1);
        assert(plain_linked(g, rem, avoid, path, i - 1));
    }
}

/// When the queue is empty, every node has been closed, so the closed states hold the
/// initial state and every state plain pushes lead to; none of them is solved.
proof fn lemma_exhausted(g: Grid<MapCell>, rem: Option<Pos>, avoid: Set<Pos>, init: StateView, cl: Seq<State>, nodes: Seq<Node>)
    requires
        nodes.len() > 0,
        nodes[0].state@ == init,
        forall|i: int| 0 <= i < nodes.len() ==> #[trigger] settled(Multiset::empty(), cl, nodes, i),
        forall|v: StateView| #[trigger] in_closed(cl, v) ==> expanded(g, rem, avoid, nodes, v),
    ensures
        no_plain_solution(g, rem, avoid, init),
{
    broadcast use vstd::multiset::group_multiset_axioms;

    let cs = Set::new(|v: StateView| in_closed(cl, v));
    assert forall|i: int| 0 <= i < nodes.len() implies in_closed(cl, (#[trigger] nodes[i]).state@) by {
        assert(settled(Multiset::empty(), cl, nodes, i));
        if pending(Multiset::empty(), i) {
            let e = choose|e: (u64, u64, usize)| #[trigger] Multiset::<(u64, u64, usize)>::empty().contains(e) && e.2 == i;
        }
    }
    assert(cs.contains(init)) by {
        assert(in_closed(cl, nodes[0].state@));
    }
    assert forall|s: StateView, t: StateView|
        #![trigger cs.contains(s), plain_step(g, rem, avoid, s, t)]
        cs.contains(s) && plain_step(g, rem, avoid, s, t) implies cs.contains(t) by {
        assert(in_closed(cl, s));
        assert(expanded(g, rem, avoid, nodes, s));
        assert(created(nodes, t));
        let i = choose|i: int| 0 <= i < nodes.len() && (#[trigger] nodes[i]).state@ == t;
        assert(in_closed(cl, nodes[i].state@));
    }
    assert forall|path: Seq<StateView>|
        #[trigger] plain_path(g, rem, avoid, path) && path[0] == init implies !solved(g, path.last().1.to_set()) by {
        lemma_closed_paths(g, rem, avoid, cs, path, path.len() - 1);
        assert(in_closed(cl, path.last()));
        assert(expanded(g, rem, avoid, nodes, path.last()));
    }
}

/// The state of a plain push is among the states `expand_push` returned.
proof fn lemma_plain_step_found(
    g: Grid<MapCell>,
    rem: Option<Pos>,
    dead: Vec2d<bool>,
    cur: StateView,
    r: Seq<State>,
    t: StateView,
)
    requires
        plain_step(g, rem, dead_set(dead), cur, t),
        forall|i: int| 0 <= i < r.len() ==> search_state(g, (#[trigger] r[i])@),
        forall|x: Pos, d: Dir|
            #[trigger] can_push(g, cur, x, d) && !dead.at(x.step(d).step(d)) ==> exists|i: int|
                0 <= i < r.len() && push_at(g, rem, cur, r[i]@, x, d) && r[i].player_pos == x.step(d),
    ensures
        exists|i: int| 0 <= i < r.len() && (#[trigger] r[i])@ == t,
{
    let (x, d) = choose|x: Pos, d: Dir|
        #[trigger] push_at(g, rem, cur, t, x, d) && !dead_set(dead).contains(x.step(d).step(d)) && t.0 == x.step(d) && sorted(t.1);
    assert(can_push(g, cur, x, d));
    let i = choose|i: int| 0 <= i < r.len() && push_at(g, rem, cur, r[i]@, x, d) && r[i].player_pos == x.step(d);
    assert(search_state(g, r[i]@));
    crate::state::lemma_sorted_set_unique(r[i]@.1, t.1);
    assert(r[i]@ == t);
}

/// The distance of the root is zero, and that of every other node is one more than the
/// distance of its parent.
pub open spec fn dists_ok(nodes: Seq<Node>) -> bool {
    &&& nodes.len() > 0
    &&& nodes[0].dist == 0
    &&& forall|i: int| 0 < i < nodes.len() ==> #[trigger] dist_linked(nodes, i)
}

/// The distance of the node `i` is one more than that of its parent.
pub open spec fn dist_linked(nodes: Seq<Node>, i: int) -> bool {
    match nodes[i].parent {
        Some(j) => nodes[i].dist == nodes[j as int].dist + 1,
        None => true,
    }
}

/// Every entry of the queue is keyed by the distance of its node plus the estimate of the
/// node's state, capped at `u64::MAX`.
pub open spec fn keys_ok(map: &MapType, h: Multiset<(u64, u64, usize)>, nodes: Seq<Node>) -> bool {
    forall|e: (u64, u64, usize)|
        #[trigger] h.contains(e) ==> e.2 < nodes.len() && e.0 == capped_add(
            nodes[e.2 as int].dist as nat,
            push_estimate(targets(map), nodes[e.2 as int].state@.1),
        )
}

/// Every state one plain push away from the state of node `c` has a node whose distance
/// is at most one more than that of `c`.
pub open spec fn succ_near(map: &MapType, avoid: Set<Pos>, nodes: Seq<Node>, c: int) -> bool {
    forall|t: StateView|
        #[trigger] plain_step(map.spec_grid(), map.spec_remover(), avoid, nodes[c].state@, t) ==> exists|i: int|
            0 <= i < nodes.len() && (#[trigger] nodes[i]).state@ == t && nodes[i].dist <= nodes[c].dist + 1
}

/// No plain path from `init` reaches the state of node `c` in fewer pushes than the
/// distance of `c`, unless its length and the estimate of that state together reach
/// `u64::MAX`.
pub open spec fn shortest_node(map: &MapType, avoid: Set<Pos>, init: StateView, nodes: Seq<Node>, c: int) -> bool {
    forall|p: Seq<StateView>|
        #[trigger] plain_path(map.spec_grid(), map.spec_remover(), avoid, p) && p[0] == init && p.last()
            == nodes[c].state@ ==> nodes[c].dist <= p.len() - 1 || p.len() - 1 + push_estimate(
            targets(map),
            nodes[c].state@.1,
        ) >= u64::MAX
}

/// The closed state `j` is that of node `cidx[j]`, which was reached by a shortest plain
/// path and whose successors all have nodes.
pub open spec fn closed_node(
    map: &MapType,
    avoid: Set<Pos>,
    init: StateView,
    cl: Seq<State>,
    cidx: Seq<int>,
    nodes: Seq<Node>,
    j: int,
) -> bool {
    let c = cidx[j];
    &&& 0 <= c < nodes.len()
    &&& cl[j]@ == nodes[c].state@
    &&& succ_near(map, avoid, nodes, c)
    &&& shortest_node(map, avoid, init, nodes, c)
}

/// Every closed state is described by `closed_node`.
pub open spec fn closed_facts(
    map: &MapType,
    avoid: Set<Pos>,
    init: StateView,
    cl: Seq<State>,
    cidx: Seq<int>,
    nodes: Seq<Node>,
) -> bool {
    &&& cidx.len() == cl.len()
    &&& forall|j: int| 0 <= j < cidx.len() ==> #[trigger] closed_node(map, avoid, init, cl, cidx, nodes, j)
}

proof fn lemma_keys_after_pop(map: &MapType, h0: Multiset<(u64, u64, usize)>, item: (u64, u64, usize), nodes: Seq<Node>)
    requires
        keys_ok(map, h0, nodes),
        h0.contains(item),
    ensures
        keys_ok(map, h0.remove(item), nodes),
{
    broadcast use vstd::multiset::group_multiset_axioms;

    assert forall|e: (u64, u64, usize)| #[trigger] h0.remove(item).contains(e) implies h0.contains(e) by {
        if e == item {
        }
    }
}

proof fn lemma_keys_after_push(map: &MapType, h0: Multiset<(u64, u64, usize)>, x: (u64, u64, usize), nodes0: Seq<Node>, nd: Node)
    requires
        keys_ok(map, h0, nodes0),
        x.2 == nodes0.len(),
        x.0 == capped_add(nd.dist as nat, push_estimate(targets(map), nd.state@.1)),
    ensures
        keys_ok(map, h0.insert(x), nodes0.push(nd)),
{
    broadcast use vstd::multiset::group_multiset_axioms;

    let nodes = nodes0.push(nd);
    assert forall|e: (u64, u64, usize)| #[trigger] h0.insert(x).contains(e) implies e.2 < nodes.len() && e.0 == capped_add(
        nodes[e.2 as int].dist as nat,
        push_estimate(targets(map), nodes[e.2 as int].state@.1),
    ) by {
        if e != x {
            assert(h0.contains(e));
            assert(nodes[e.2 as int] == nodes0[e.2 as int]);
        } else {
            assert(nodes[e.2 as int] == nd);
        }
    }
}

proof fn lemma_closed_after_node_push(
    map: &MapType,
    avoid: Set<Pos>,
    init: StateView,
    cl: Seq<State>,
    cidx: Seq<int>,
    nodes0: Seq<Node>,
    nd: Node,
)
    requires
        closed_facts(map, avoid, init, cl, cidx, nodes0),
    ensures
        closed_facts(map, avoid, init, cl, cidx, nodes0.push(nd)),
{
    let nodes = nodes0.push(nd);
    assert forall|j: int| 0 <= j < cidx.len() implies #[trigger] closed_node(map, avoid, init, cl, cidx, nodes, j) by {
        assert(closed_node(map, avoid, init, cl, cidx, nodes0, j));
        let c = cidx[j];
        assert(nodes[c] == nodes0[c]);
        assert forall|t: StateView|
            #[trigger] plain_step(map.spec_grid(), map.spec_remover(), avoid, nodes[c].state@, t) implies exists|i: int|
                0 <= i < nodes.len() && (#[trigger] nodes[i]).state@ == t && nodes[i].dist <= nodes[c].dist + 1 by {
            let i = choose|i: int| 0 <= i < nodes0.len() && (#[trigger] nodes0[i]).state@ == t && nodes0[i].dist <= nodes0[c].dist + 1;
            assert(nodes[i] == nodes0[i]);
        }
    }
}

/// A state of `p` that is not closed, at or before `k`, with a closed state before it
/// unless it is the first.
proof fn lemma_open_index(cl: Seq<State>, p: Seq<StateView>, k: int) -> (i: int)
    requires
        0 <= k < p.len(),
        !in_closed(cl, p[k]),
    ensures
        0 <= i <= k,
        !in_closed(cl, p[i]),
        i > 0 ==> in_closed(cl, p[i - 1]),
    decreases k,
{
    if k == 0 || in_closed(cl, p[k - 1]) {
        k
    } else {
        lemma_open_index(cl, p, k - 1)
    }
}

/// The key of the entry taken from the queue is at most the length of any plain path
/// from `init` to a state that is not closed, plus the estimate of that state.
#[verifier::rlimit(40)]
proof fn lemma_pop_bound(
    map: &MapType,
    avoid: Set<Pos>,
    init: StateView,
    h0: Multiset<(u64, u64, usize)>,
    item: (u64, u64, usize),
    cl: Seq<State>,
    cidx: Seq<int>,
    nodes: Seq<Node>,
    p: Seq<StateView>,
)
    requires
        plain_path(map.spec_grid(), map.spec_remover(), avoid, p),
        p[0] == init,
        sorted(init.1),
        !in_closed(cl, p.last()),
        forall|y: (u64, u64, usize)| #[trigger] h0.contains(y) ==> crate::solver::heap::item_le(item, y),
        keys_ok(map, h0, nodes),
        nodes.len() > 0,
        nodes[0].state@ == init,
        nodes[0].dist == 0,
        forall|i: int| 0 <= i < nodes.len() ==> #[trigger] settled(h0, cl, nodes, i),
        closed_facts(map, avoid, init, cl, cidx, nodes),
    ensures
        item.0 <= p.len() - 1 + push_estimate(targets(map), p.last().1),
{
    let g = map.spec_grid();
    let rem = map.spec_remover();
    let ts = targets(map);
    let k = p.len() - 1;
    let i = lemma_open_index(cl, p, k);
    crate::solver::estimate::lemma_estimate_path(map, avoid, p, i);
    let m: int = if i == 0 {
        0
    } else {
        let (jj) = choose|jj: int| 0 <= jj < cl.len() && (#[trigger] cl[jj])@ == p[i - 1];
        assert(closed_node(map, avoid, init, cl, cidx, nodes, jj));
        let c = cidx[jj];
        let q = p.subrange(0, i);
        assert forall|t: int| 0 <= t < q.len() - 1 implies #[trigger] plain_linked(g, rem, avoid, q, t) by {
            assert(plain_linked(g, rem, avoid, p, t));
            assert(q[t] == p[t] && q[t + 1] == p[t + 1]);
        }
        assert(plain_path(g, rem, avoid, q));
        assert(q[0] == init && q.last() == nodes[c].state@);
        assert(plain_linked(g, rem, avoid, p, i - 1));
        assert(plain_step(g, rem, avoid, nodes[c].state@, p[i]));
        let m = choose|m: int| 0 <= m < nodes.len() && (#[trigger] nodes[m]).state@ == p[i] && nodes[m].dist <= nodes[c].dist + 1;
        if !(nodes[c].dist <= i - 1) {
            crate::solver::estimate::lemma_estimate_path(map, avoid, p, i - 1);
        }
        m
    };
    if i == 0 || nodes[m].dist <= i {
        assert(nodes[m].state@ == p[i]);
        assert(settled(h0, cl, nodes, m));
        let e = choose|e: (u64, u64, usize)| #[trigger] h0.contains(e) && e.2 == m;
        assert(crate::solver::heap::item_le(item, e));
    }
}

/// A* search over pushes from `initial_state`, cheapest sum of pushes so far and estimate
/// first; states reached again are skipped. Returns the states from the initial one to the
/// first solved state it takes from the queue, the counts of the states, and with
/// `print_status` a progress report for every new depth. It gives up after `u64::MAX`
/// states taken from the queue. The path and the counts come from one run that does not
/// depend on `print_status`, which only decides whether the report is handed back.
/// Where every goal cell is a target, the estimate never drops by more than one per push
/// and is zero on solved states, so the path returned has the fewest pushes of all plain
/// paths to a solved state.
pub fn search(map: &MapType, dead_ends: &Vec2d<bool>, initial_state: &State, print_status: bool) -> (r: (
    Option<Vec<State>>,
    Stats,
    Vec<String>,
))
    requires
        map_ok(map, dead_ends),
        search_state(map.spec_grid(), initial_state@),
        initial_state.boxes@.len() <= MAX_BOXES,
    ensures
        r.0 matches Some(path) ==> push_solution(map.spec_grid(), map.spec_remover(), initial_state@, path@),
        solved(map.spec_grid(), initial_state.boxes@.to_set()) ==> (r.0 matches Some(path) && path@.len() == 1),
        r.0 is None ==> no_plain_solution(map.spec_grid(), map.spec_remover(), dead_set(*dead_ends), initial_state@),
        !print_status ==> r.2@.len() == 0,
        crate::solver::estimate::goals_targeted(map) ==> (r.0 matches Some(path) ==> forall|p: Seq<StateView>|
            #[trigger] plain_path(map.spec_grid(), map.spec_remover(), dead_set(*dead_ends), p) && p[0] == initial_state@
                && solved(map.spec_grid(), p.last().1.to_set()) ==> path@.len() <= p.len()),
{
    let (path, stats, progress) = search_reporting(map, dead_ends, initial_state);
    if print_status {
        (path, stats, progress)
    } else {
        (path, stats, Vec::new())
    }
}

/// The search of `search`, with the progress report for every new depth.
fn search_reporting(map: &MapType, dead_ends: &Vec2d<bool>, initial_state: &State) -> (r: (
    Option<Vec<State>>,
    Stats,
    Vec<String>,
))
    requires
        map_ok(map, dead_ends),
        search_state(map.spec_grid(), initial_state@),
        initial_state.boxes@.len() <= MAX_BOXES,
    ensures
        r.0 matches Some(path) ==> push_solution(map.spec_grid(), map.spec_remover(), initial_state@, path@),
        solved(map.spec_grid(), initial_state.boxes@.to_set()) ==> (r.0 matches Some(path) && path@.len() == 1),
        r.0 is None ==> no_plain_solution(map.spec_grid(), map.spec_remover(), dead_set(*dead_ends), initial_state@),
        crate::solver::estimate::goals_targeted(map) ==> (r.0 matches Some(path) ==> forall|p: Seq<StateView>|
            #[trigger] plain_path(map.spec_grid(), map.spec_remover(), dead_set(*dead_ends), p) && p[0] == initial_state@
                && solved(map.spec_grid(), p.last().1.to_set()) ==> path@.len() <= p.len()),
{
    let ghost g = map.spec_grid();
    let ghost rem = map.spec_remover();
    let ghost init = initial_state@;
    let mut stats = Stats::new();
    let mut progress: Vec<String> = Vec::new();
    let mut to_visit = MinHeap::new();
    let mut closed: Vec<State> = Vec::new();
    let mut nodes: Vec<Node> = Vec::new();
    let h = heuristic_push(map, initial_state);
    nodes.push(Node { state: initial_state.clone(), parent: None, dist: 0 });
    stats.add_created(0);
    to_visit.push((h, h, 0));
    proof {
        broadcast use vstd::multiset::group_multiset_axioms;

        assert(heap_ok(to_visit@, 1));
    }
    let ghost first_item = (h, h, 0usize);
    proof {
        broadcast use vstd::multiset::group_multiset_axioms;

        assert(to_visit@ =~= vstd::multiset::Multiset::singleton(first_item));
        assert(to_visit@.contains(first_item));
        assert(settled(to_visit@, closed@, nodes@, 0));
        assert(keys_ok(map, to_visit@, nodes@)) by {
            assert forall|e: (u64, u64, usize)| #[trigger] to_visit@.contains(e) implies e == first_item by {}
        }
    }
    let ghost avoid = dead_set(*dead_ends);
    let ghost mut cidx: Seq<int> = Seq::empty();
    let mut budget: u64 = u64::MAX;
    while budget > 0
        invariant
            g == map.spec_grid(),
            rem == map.spec_remover(),
            init == initial_state@,
            map_ok(map, dead_ends),
            tree_ok(g, rem, init, nodes@),
            budget == u64::MAX ==> nodes@.len() == 1 && closed@.len() == 0 && to_visit@ == vstd::multiset::Multiset::singleton(first_item),
            solved(g, init.1.to_set()) ==> budget == u64::MAX,
            to_visit.wf(),
            heap_ok(to_visit@, nodes@.len() as nat),
            (u64::MAX - budget) + to_visit@.len() <= nodes.len(),
            forall|i: int| 0 <= i < nodes@.len() ==> #[trigger] settled(to_visit@, closed@, nodes@, i),
            forall|v: StateView| #[trigger] in_closed(closed@, v) ==> expanded(g, rem, dead_set(*dead_ends), nodes@, v),
            dists_ok(nodes@),
            forall|i: int| 0 <= i < nodes@.len() ==> (#[trigger] nodes@[i]).dist <= i,
            keys_ok(map, to_visit@, nodes@),
            avoid == dead_set(*dead_ends),
            closed_facts(map, avoid, init, closed@, cidx, nodes@),
        decreases budget,
    {
        budget = budget - 1;
        let ghost h0 = to_visit@;
        let item = match to_visit.pop() {
            None => {
                proof {
                    assert(h0 =~= Multiset::empty()) by {
                        broadcast use vstd::multiset::group_multiset_axioms;
                    }
                    lemma_exhausted(g, rem, dead_set(*dead_ends), init, closed@, nodes@);
                }
                return (None, stats, progress);
            },
            Some(x) => x,
        };
        proof {
            lemma_heap_ok_remove(h0, item, nodes@.len() as nat);
            lemma_settled_after_pop(h0, item, closed@, nodes@);
            lemma_keys_after_pop(map, h0, item, nodes@);
            assert(to_visit@.len() == h0.len() - 1) by {
                broadcast use vstd::multiset::group_multiset_axioms;
            }
        }
        let idx = item.2;
        assert(idx < nodes@.len());
        proof {
            if budget + 1 == u64::MAX {
                assert(item == first_item) by {
                    broadcast use vstd::multiset::group_multiset_axioms;
                }
            }
        }
        let dist = nodes[idx].dist;
        if closed_contains(&closed, &nodes[idx].state) {
            proof {
                assert(in_closed(closed@, nodes@[idx as int].state@));
                assert(settled(to_visit@, closed@, nodes@, idx as int));
            }
            stats.add_duplicate(dist);
            continue;
        }
        proof {
            let x = nodes@[idx as int];
            assert(!in_closed(closed@, x.state@));
            assert(h0.contains(item));
            assert(search_state(g, nodes@[0].state@));
            assert forall|p: Seq<StateView>|
                #[trigger] plain_path(g, rem, avoid, p) && p[0] == init && !in_closed(closed@, p.last()) implies item.0 <= p.len()
                    - 1 + push_estimate(targets(map), p.last().1) by {
                lemma_pop_bound(map, avoid, init, h0, item, closed@, cidx, nodes@, p);
            }
            assert(shortest_node(map, avoid, init, nodes@, idx as int));
        }
        if stats.add_visited(dist) {
            progress.push(crate::solver::depth_message(dist as u64));
            progress.push(stats.summary());
        }
        proof {
            assert(search_state(g, nodes@[idx as int].state@));
        }
        if is_solved(map, &nodes[idx].state) {
            let path = backtrack_path(&nodes, idx, Ghost(g), Ghost(rem), Ghost(init));
            proof {
                if crate::solver::estimate::goals_targeted(map) {
                    crate::solver::estimate::lemma_estimate_solved(map, nodes@[idx as int].state@.1);
                    assert(item.0 == dist);
                    assert forall|p: Seq<StateView>|
                        #[trigger] plain_path(g, rem, avoid, p) && p[0] == init && solved(g, p.last().1.to_set()) implies path@.len()
                            <= p.len() by {
                        crate::solver::estimate::lemma_path_on_grid(map, avoid, p, p.len() - 1);
                        crate::solver::estimate::lemma_estimate_solved(map, p.last().1);
                        if in_closed(closed@, p.last()) {
                            assert(expanded(g, rem, avoid, nodes@, p.last()));
                        }
                    }
                }
            }
            return (Some(path), stats, progress);
        }
        let ghost cur_v = nodes@[idx as int].state@;
        let new_states = expand_push(map, dead_ends, &nodes[idx].state);
        proof {
            assert(nodes@[idx as int].dist <= idx);
        }
        let new_dist = dist.saturating_add(1);
        let ghost n0 = nodes@.len();
        let mut j: usize = 0;
        while j < new_states.len()
            invariant
                g == map.spec_grid(),
                rem == map.spec_remover(),
                init == initial_state@,
                map_ok(map, dead_ends),
                tree_ok(g, rem, init, nodes@),
                idx < nodes@.len(),
                forall|i: int|
                    0 <= i < new_states@.len() ==> {
                        let t = #[trigger] new_states@[i];
                        &&& push_succ(g, rem, nodes@[idx as int].state@, t@)
                        &&& search_state(g, t@)
                        &&& t.boxes@.len() <= nodes@[idx as int].state.boxes@.len()
                    },
                to_visit.wf(),
                heap_ok(to_visit@, nodes@.len() as nat),
                j <= new_states@.len(),
                cur_v == nodes@[idx as int].state@,
                !solved(g, cur_v.1.to_set()),
                forall|x: Pos, d: Dir|
                    #[trigger] can_push(g, cur_v, x, d) && !dead_ends.at(x.step(d).step(d)) ==> exists|i: int|
                        0 <= i < new_states@.len() && push_at(g, rem, cur_v, new_states@[i]@, x, d) && new_states@[i].player_pos == x.step(d),
                nodes@.len() == n0 + j,
                forall|jj: int| 0 <= jj < j ==> (#[trigger] nodes@[n0 + jj]).state@ == new_states@[jj]@ && nodes@[n0 + jj].dist == new_dist,
                (u64::MAX - budget) + to_visit@.len() <= nodes.len(),
                dists_ok(nodes@),
                forall|i: int| 0 <= i < nodes@.len() ==> (#[trigger] nodes@[i]).dist <= i,
                keys_ok(map, to_visit@, nodes@),
                avoid == dead_set(*dead_ends),
                closed_facts(map, avoid, init, closed@, cidx, nodes@),
                shortest_node(map, avoid, init, nodes@, idx as int),
                dist == nodes@[idx as int].dist,
                new_dist == dist + 1,
                forall|i: int| 0 <= i < nodes@.len() && i != idx ==> #[trigger] settled(to_visit@, closed@, nodes@, i),
                forall|v: StateView| #[trigger] in_closed(closed@, v) ==> expanded(g, rem, dead_set(*dead_ends), nodes@, v),
            decreases new_states@.len() - j,
        {
            let ns = new_states[j].clone();
            let nh = heuristic_push(map, &ns);
            let n = nodes.len();
            let ghost nodes0 = nodes@;
            let ghost parent_state = nodes@[idx as int].state@;
            proof {
                assert(new_states@[j as int]@ == ns@);
                assert(nodes@[idx as int].state.boxes@.len() <= MAX_BOXES);
            }
            let nd = Node { state: ns, parent: Some(idx), dist: new_dist };
            let ghost nd_v = nd;
            nodes.push(nd);
            stats.add_created(new_dist);
            let ghost h0 = to_visit@;
            to_visit.push(((new_dist as u64).saturating_add(nh), nh, n));
            proof {
                lemma_heap_ok_insert(h0, ((new_dist as u64).saturating_add(nh), nh, n), n as nat);
                lemma_settled_after_push(h0, ((new_dist as u64).saturating_add(nh), nh, n), closed@, nodes0, nd_v, idx as int);
                lemma_expanded_after_push(g, rem, dead_set(*dead_ends), closed@, nodes0, nd_v);
                assert(nodes@ == nodes0.push(nd_v));
                assert(to_visit@.len() == h0.len() + 1) by {
                    broadcast use vstd::multiset::group_multiset_axioms;
                }
                assert forall|jj: int| 0 <= jj < j + 1 implies (#[trigger] nodes@[n0 + jj]).state@ == new_states@[jj]@ && nodes@[n0 + jj].dist == new_dist by {
                    if jj < j {
                        assert(nodes@[n0 + jj] == nodes0[n0 + jj]);
                    }
                }
                lemma_keys_after_push(map, h0, ((new_dist as u64).saturating_add(nh), nh, n), nodes0, nd_v);
                lemma_closed_after_node_push(map, avoid, init, closed@, cidx, nodes0, nd_v);
                assert(nodes@[idx as int] == nodes0[idx as int]);
                assert forall|i: int| 0 < i < nodes@.len() implies #[trigger] dist_linked(nodes@, i) by {
                    if i < n {
                        assert(nodes@[i] == nodes0[i]);
                        assert(dist_linked(nodes0, i));
                        if nodes0[i].parent is Some {
                            let p = nodes0[i].parent.unwrap();
                            assert(node_linked(g, rem, nodes0, i));
                            assert(nodes@[p as int] == nodes0[p as int]);
                        }
                    }
                }
                assert forall|i: int| 0 <= i < nodes@.len() implies (#[trigger] nodes@[i]).dist <= i by {
                    if i < n {
                        assert(nodes@[i] == nodes0[i]);
                    }
                }
                assert forall|i: int| 0 < i < nodes@.len() implies #[trigger] node_linked(g, rem, nodes@, i) by {
                    if i < n {
                        assert(nodes@[i] == nodes0[i]);
                        assert(node_linked(g, rem, nodes0, i));
                        let p = nodes0[i].parent.unwrap();
                        assert(nodes@[p as int] == nodes0[p as int]);
                    } else {
                        assert(nodes@[idx as int] == nodes0[idx as int]);
                    }
                }
                assert forall|i: int| 0 <= i < nodes@.len() implies search_state(g, (#[trigger] nodes@[i]).state@) && nodes@[i].state.boxes@.len() <= MAX_BOXES by {
                    if i < n {
                        assert(nodes@[i] == nodes0[i]);
                    }
                }
                assert(nodes@[0] == nodes0[0]);
            }
            j = j + 1;
        }
        proof {
            assert forall|t: StateView| #[trigger] plain_step(g, rem, dead_set(*dead_ends), cur_v, t) implies created(nodes@, t) by {
                lemma_plain_step_found(g, rem, *dead_ends, cur_v, new_states@, t);
                let i = choose|i: int| 0 <= i < new_states@.len() && (#[trigger] new_states@[i])@ == t;
                assert(nodes@[n0 + i].state@ == t);
            }
            assert(expanded(g, rem, dead_set(*dead_ends), nodes@, cur_v));
            assert forall|t: StateView| #[trigger] plain_step(g, rem, avoid, nodes@[idx as int].state@, t) implies exists|i: int|
                0 <= i < nodes@.len() && (#[trigger] nodes@[i]).state@ == t && nodes@[i].dist <= nodes@[idx as int].dist + 1 by {
                lemma_plain_step_found(g, rem, *dead_ends, cur_v, new_states@, t);
                let i = choose|i: int| 0 <= i < new_states@.len() && (#[trigger] new_states@[i])@ == t;
                assert(nodes@[n0 + i].state@ == t && nodes@[n0 + i].dist == new_dist);
            }
            assert(succ_near(map, avoid, nodes@, idx as int));
        }
        let c = nodes[idx].state.clone();
        proof {
            lemma_close(g, rem, dead_set(*dead_ends), to_visit@, closed@, c, nodes@, idx as int);
        }
        let ghost cl0 = closed@;
        let ghost cidx0 = cidx;
        closed.push(c);
        proof {
            cidx = cidx.push(idx as int);
            assert forall|jx: int| 0 <= jx < cidx.len() implies #[trigger] closed_node(map, avoid, init, closed@, cidx, nodes@, jx) by {
                if jx < cidx0.len() {
                    assert(closed_node(map, avoid, init, cl0, cidx0, nodes@, jx));
                    assert(closed@[jx] == cl0[jx]);
                    assert(cidx[jx] == cidx0[jx]);
                } else {
                    assert(closed@[jx] == c);
                    assert(cidx[jx] == idx);
                }
            }
        }
    }
    proof {
        assert(to_visit@.len() == 0);
        assert(to_visit@ =~= Multiset::empty()) by {
            broadcast use vstd::multiset::group_multiset_axioms;
        }
        lemma_exhausted(g, rem, dead_set(*dead_ends), init, closed@, nodes@);
    }
    (None, stats, progress)
}

/// A cell that can hold a box: neither a wall nor the remover.
pub open spec fn free_cell(g: Grid<MapCell>, p: Pos) -> bool {
    g.at(p) != MapCell::Wall && g.at(p) != MapCell::Remover
}

/// A lone box at `b` can be brought to a target: with the player next to it, a sequence
/// of pushes solves the level.
pub open spec fn lone_box_solvable(g: Grid<MapCell>, rem: Option<Pos>, b: Pos) -> bool {
    exists|path: Seq<State>|
        #[trigger] push_solution(g, rem, path[0]@, path) && path[0].boxes@ == seq![b]
            && crate::reach::adj(path[0].player_pos, b)
}

/// A goal cell with a cell next to it the player can stand on.
pub open spec fn open_goal(g: Grid<MapCell>, p: Pos) -> bool {
    g.at(p) == MapCell::Goal && exists|d: Dir| #[trigger] g.at(p.step(d)) != MapCell::Wall
}

/// The cells before `p` in reading order that `dead` marks.
pub open spec fn earlier_dead(g: Grid<MapCell>, dead: Vec2d<bool>, p: Pos) -> Set<Pos> {
    Set::new(|q: Pos| g.in_bounds(q) && g.idx(q) < g.idx(p) && dead.at(q))
}

/// From every free cell next to `p`, no plain pushes avoiding `avoid` bring a lone box at
/// `p` to a target.
pub open spec fn hopeless(g: Grid<MapCell>, rem: Option<Pos>, avoid: Set<Pos>, p: Pos) -> bool {
    forall|d: Dir| #[trigger] g.at(p.step(d)) != MapCell::Wall ==> no_plain_solution(g, rem, avoid, (p.step(d), seq![p]))
}

/// Only the cells on the grid matter for what is avoided.
proof fn lemma_avoid_same(g: Grid<MapCell>, rem: Option<Pos>, a1: Set<Pos>, a2: Set<Pos>, init: StateView)
    requires
        forall|z: Pos| g.in_bounds(z) ==> (a1.contains(z) == a2.contains(z)),
        no_plain_solution(g, rem, a1, init),
    ensures
        no_plain_solution(g, rem, a2, init),
{
    assert forall|s: StateView, t: StateView| #[trigger] plain_step(g, rem, a2, s, t) implies plain_step(g, rem, a1, s, t) by {
        let (x, d) = choose|x: Pos, d: Dir|
            #[trigger] push_at(g, rem, s, t, x, d) && !a2.contains(x.step(d).step(d)) && t.0 == x.step(d) && sorted(t.1);
        assert(push_at(g, rem, s, t, x, d) && !a1.contains(x.step(d).step(d)) && t.0 == x.step(d) && sorted(t.1));
    }
    assert forall|path: Seq<StateView>|
        #[trigger] plain_path(g, rem, a2, path) && path[0] == init implies !solved(g, path.last().1.to_set()) by {
        assert forall|i: int| 0 <= i < path.len() - 1 implies #[trigger] plain_linked(g, rem, a1, path, i) by {
            assert(plain_linked(g, rem, a2, path, i));
        }
        assert(plain_path(g, rem, a1, path));
    }
}

/// The dead ends of a map: the cells holding a box from which the search, started with
/// the player on any free cell next to it, finds no way to a target. Walls and the remover
/// are no dead ends. The search runs cell by cell in reading order and already avoids the
/// dead ends found before, which loses nothing (see `lemma_dead_ends_hopeless`).
pub fn mark_dead_ends(map: &MapType) -> (dead_ends: Vec2d<bool>)
    requires
        map.spec_grid().wf(),
        enclosed(map.spec_grid()),
        grid_ok(map.spec_grid(), map.spec_remover()),
    ensures
        fits(map, &dead_ends),
        forall|p: Pos| map.spec_grid().in_bounds(p) && #[trigger] dead_ends.at(p) ==> free_cell(map.spec_grid(), p),
        forall|p: Pos|
            map.spec_grid().in_bounds(p) && !#[trigger] dead_ends.at(p) && free_cell(map.spec_grid(), p)
                ==> lone_box_solvable(map.spec_grid(), map.spec_remover(), p),
        forall|p: Pos| map.spec_grid().in_bounds(p) && open_goal(map.spec_grid(), p) ==> !#[trigger] dead_ends.at(p),
        forall|p: Pos|
            map.spec_grid().in_bounds(p) && #[trigger] dead_ends.at(p) ==> hopeless(
                map.spec_grid(),
                map.spec_remover(),
                earlier_dead(map.spec_grid(), dead_ends, p),
                p,
            ),
{
    let ghost g = map.spec_grid();
    let ghost rem = map.spec_remover();
    let grid = map.grid();
    let mut dead: Vec2d<bool> = grid.scratchpad_with_default(false);
    let ps = grid.positions();
    let mut i: usize = 0;
    while i < ps.len()
        invariant
            g == map.spec_grid(),
            rem == map.spec_remover(),
            grid@ == g,
            grid.wf(),
            enclosed(g),
            grid_ok(g, rem),
            dead.wf(),
            dead.same_dims(grid),
            i <= ps@.len(),
            ps@.len() == g.rows as int * g.cols as int,
            forall|k: int| 0 <= k < ps@.len() ==> g.in_bounds(#[trigger] ps@[k]),
            forall|k: int| 0 <= k < ps@.len() ==> g.idx(#[trigger] ps@[k]) == k,
            forall|p: Pos| g.in_bounds(p) && #[trigger] dead.at(p) ==> free_cell(g, p),
            forall|p: Pos|
                g.in_bounds(p) && g.idx(p) < i && !#[trigger] dead.at(p) && free_cell(g, p) ==> lone_box_solvable(g, rem, p),
            forall|p: Pos| g.in_bounds(p) && open_goal(g, p) ==> !#[trigger] dead.at(p),
            forall|q: Pos| g.in_bounds(q) && g.idx(q) >= i ==> !#[trigger] dead.at(q),
            forall|q: Pos|
                g.in_bounds(q) && g.idx(q) < i && #[trigger] dead.at(q) ==> hopeless(g, rem, earlier_dead(g, dead, q), q),
        decreases ps@.len() - i,
    {
        let p = ps[i];
        let cell = *grid.get(p);
        if cell != MapCell::Wall && cell != MapCell::Remover {
            proof {
                assert(g.at(p) == grid.at(p));
                assert(g.at(p) != MapCell::Wall);
                assert(!on_border(g, p));
            }
            let mut found = false;
            let mut k: usize = 0;
            while k < 4 && !found
                invariant
                    g == map.spec_grid(),
                    rem == map.spec_remover(),
                    grid@ == g,
                    grid.wf(),
                    enclosed(g),
                    grid_ok(g, rem),
                    dead.wf(),
                    dead.same_dims(grid),
                    g.in_bounds(p),
                    free_cell(g, p),
                    !on_border(g, p),
                    k <= 4,
                    found ==> lone_box_solvable(g, rem, p),
                    g.at(p) == MapCell::Goal && !found ==> forall|d: Dir| d.spec_index() < k ==> #[trigger] g.at(p.step(d)) == MapCell::Wall,
                    !found ==> forall|d: Dir|
                        d.spec_index() < k && #[trigger] g.at(p.step(d)) != MapCell::Wall ==> no_plain_solution(
                            g,
                            rem,
                            dead_set(dead),
                            (p.step(d), seq![p]),
                        ),
                decreases 4 - k,
            {
                let dir = crate::data::dir_from_index(k);
                let player = p.add_dir(dir);
                proof {
                    crate::reach::lemma_adj_step(p, dir);
                }
                if *grid.get(player) != MapCell::Wall {
                    let mut boxes: Vec<Pos> = Vec::new();
                    boxes.push(p);
                    let fake_state = State { player_pos: player, boxes };
                    proof {
                        assert(fake_state.boxes@ =~= seq![p]);
                        assert(search_state(g, fake_state@));
                        if g.at(p) == MapCell::Goal {
                            assert(solved(g, fake_state.boxes@.to_set())) by {
                                assert forall|b: Pos| fake_state.boxes@.to_set().contains(b) implies g.at(b) == MapCell::Goal by {
                                    assert(fake_state.boxes@.contains(b));
                                }
                            }
                        }
                    }
                    let (res, _, _) = search(map, &dead, &fake_state, false);
                    if let Some(path) = res {
                        proof {
                            assert(push_solution(g, rem, path@[0]@, path@));
                            assert(path@[0].boxes@ == seq![p]);
                            assert(crate::reach::adj(path@[0].player_pos, p));
                        }
                        found = true;
                    } else {
                        proof {
                            assert(fake_state@ == (p.step(dir), seq![p]));
                            assert(no_plain_solution(g, rem, dead_set(dead), (p.step(dir), seq![p])));
                        }
                    }
                }
                proof {
                    if !found {
                        assert forall|d: Dir|
                            d.spec_index() < k + 1 && #[trigger] g.at(p.step(d)) != MapCell::Wall implies no_plain_solution(
                            g,
                            rem,
                            dead_set(dead),
                            (p.step(d), seq![p]),
                        ) by {
                            if d.spec_index() == k {
                                assert(d == dir);
                            }
                        }
                    }
                }
                k = k + 1;
            }
            if !found {
                let ghost d0 = dead;
                proof {
                    if open_goal(g, p) {
                        let d = choose|d: Dir| #[trigger] g.at(p.step(d)) != MapCell::Wall;
                        assert(d.spec_index() < 4);
                    }
                }
                dead.set(p, true);
                proof {
                    assert forall|q: Pos| g.in_bounds(q) && g.idx(q) < i + 1 && !#[trigger] dead.at(q) && free_cell(g, q) implies lone_box_solvable(g, rem, q) by {
                        assert(q != p);
                        assert(dead.at(q) == d0.at(q));
                        if g.idx(q) == i && q != p {
                            grid.lemma_idx_inj(q, p);
                        }
                    }
                    assert forall|q: Pos| g.in_bounds(q) && #[trigger] dead.at(q) implies free_cell(g, q) by {
                        if q != p {
                            assert(dead.at(q) == d0.at(q));
                        }
                    }
                    assert forall|q: Pos| g.in_bounds(q) && g.idx(q) >= i + 1 implies !#[trigger] dead.at(q) by {
                        assert(q != p);
                        assert(dead.at(q) == d0.at(q));
                    }
                    assert forall|q: Pos|
                        g.in_bounds(q) && g.idx(q) < i + 1 && #[trigger] dead.at(q) implies hopeless(g, rem, earlier_dead(g, dead, q), q) by {
                        if q == p {
                            assert forall|d: Dir| #[trigger] g.at(p.step(d)) != MapCell::Wall implies no_plain_solution(
                                g,
                                rem,
                                earlier_dead(g, dead, p),
                                (p.step(d), seq![p]),
                            ) by {
                                assert(d.spec_index() < 4);
                                assert forall|z: Pos| g.in_bounds(z) implies (dead_set(d0).contains(z) == earlier_dead(g, dead, p).contains(z)) by {
                                    if z != p {
                                        assert(dead.at(z) == d0.at(z));
                                    }
                                }
                                lemma_avoid_same(g, rem, dead_set(d0), earlier_dead(g, dead, p), (p.step(d), seq![p]));
                            }
                        } else {
                            if g.idx(q) == i {
                                grid.lemma_idx_inj(q, p);
                            }
                            assert(dead.at(q) == d0.at(q));
                            assert(earlier_dead(g, dead, q) =~= earlier_dead(g, d0, q)) by {
                                assert forall|z: Pos| earlier_dead(g, dead, q).contains(z) == earlier_dead(g, d0, q).contains(z) by {
                                    if g.in_bounds(z) && g.idx(z) < g.idx(q) {
                                        assert(z != p);
                                        assert(dead.at(z) == d0.at(z));
                                    }
                                }
                            }
                        }
                    }
                }
            } else {
                proof {
                    assert forall|q: Pos| g.in_bounds(q) && g.idx(q) < i + 1 && !#[trigger] dead.at(q) && free_cell(g, q) implies lone_box_solvable(g, rem, q) by {
                        if g.idx(q) == i && q != p {
                            grid.lemma_idx_inj(q, p);
                        }
                    }
                }
            }
        } else {
            proof {
                assert forall|q: Pos| g.in_bounds(q) && g.idx(q) < i + 1 && !#[trigger] dead.at(q) && free_cell(g, q) implies lone_box_solvable(g, rem, q) by {
                    if g.idx(q) == i && q != p {
                        grid.lemma_idx_inj(q, p);
                    }
                }
            }
        }
        i = i + 1;
    }
    proof {
        assert forall|p: Pos| g.in_bounds(p) && !#[trigger] dead.at(p) && free_cell(g, p) implies lone_box_solvable(g, rem, p) by {
            grid.lemma_idx(p);
        }
    }
    dead
}

/// At most one cell.
pub open spec fn at_most_one(s: Set<Pos>) -> bool {
    forall|a: Pos, b: Pos| s.contains(a) && s.contains(b) ==> a == b
}

/// Plain pushes from a state with at most one box lead to states with at most one box.
proof fn lemma_lone_box_stays(g: Grid<MapCell>, rem: Option<Pos>, avoid: Set<Pos>, path: Seq<StateView>, j: int)
    requires
        plain_path(g, rem, avoid, path),
        at_most_one(path[0].1.to_set()),
        0 <= j < path.len(),
    ensures
        at_most_one(path[j].1.to_set()),
    decreases j,
{
    if j > 0 {
        lemma_lone_box_stays(g, rem, avoid, path, j - 1);
        assert(plain_linked(g, rem, avoid, path, j - 1));
        let from = path[j - 1];
        let to = path[j];
        let (x, d) = choose|x: Pos, d: Dir|
            #[trigger] push_at(g, rem, from, to, x, d) && !avoid.contains(x.step(d).step(d)) && to.0 == x.step(d) && sorted(to.1);
        let y = x.step(d);
        let z = y.step(d);
        assert(from.1.to_set().remove(y) =~= Set::empty()) by {
            assert forall|a: Pos| !#[trigger] from.1.to_set().remove(y).contains(a) by {
                if from.1.to_set().contains(a) {
                    assert(a == y);
                }
            }
        }
        assert forall|a: Pos, b: Pos| to.1.to_set().contains(a) && to.1.to_set().contains(b) implies a == b by {
            if rem != Some(z) {
                assert(to.1.to_set() == from.1.to_set().remove(y).insert(z));
            }
        }
    }
}

/// A lone box can never be brought from a dead end to a target: along any plain pushes
/// from a free cell next to it, avoiding nothing, no state is solved.
proof fn lemma_dead_paths(g: Grid<MapCell>, rem: Option<Pos>, dead: Vec2d<bool>, q0: Pos, d0: Dir, path: Seq<StateView>)
    requires
        enclosed(g),
        grid_ok(g, rem),
        forall|q: Pos|
            g.in_bounds(q) && #[trigger] dead.at(q) ==> free_cell(g, q) && hopeless(g, rem, earlier_dead(g, dead, q), q),
        g.in_bounds(q0),
        dead.at(q0),
        g.at(q0.step(d0)) != MapCell::Wall,
        plain_path(g, rem, Set::empty(), path),
        path[0] == (q0.step(d0), seq![q0]),
    ensures
        !solved(g, path.last().1.to_set()),
    decreases path.len(),
{
    let a = earlier_dead(g, dead, q0);
    assert(hopeless(g, rem, a, q0));
    assert(no_plain_solution(g, rem, a, (q0.step(d0), seq![q0])));
    if forall|i: int| 0 <= i < path.len() - 1 ==> #[trigger] plain_linked(g, rem, a, path, i) {
        assert(plain_path(g, rem, a, path));
    } else {
        let i = choose|i: int| 0 <= i < path.len() - 1 && !#[trigger] plain_linked(g, rem, a, path, i);
        assert(plain_linked(g, rem, Set::empty(), path, i));
        let from = path[i];
        let to = path[i + 1];
        let (x, d) = choose|x: Pos, d: Dir|
            #[trigger] push_at(g, rem, from, to, x, d) && !Set::<Pos>::empty().contains(x.step(d).step(d))
                && to.0 == x.step(d) && sorted(to.1);
        let y = x.step(d);
        let z = y.step(d);
        // the push lands on a dead end found before `q0`
        assert(a.contains(z));
        assert(dead.at(z));
        assert(free_cell(g, z));
        assert(rem != Some(z));
        assert(at_most_one(seq![q0].to_set())) by {
            assert forall|u: Pos, v: Pos| seq![q0].to_set().contains(u) && seq![q0].to_set().contains(v) implies u == v by {
                assert(seq![q0].contains(u));
                assert(seq![q0].contains(v));
            }
        }
        lemma_lone_box_stays(g, rem, Set::empty(), path, i);
        assert(to.1.to_set() =~= seq![z].to_set()) by {
            assert forall|u: Pos| #[trigger] to.1.to_set().contains(u) <==> seq![z].to_set().contains(u) by {
                if from.1.to_set().contains(u) {
                    assert(u == y);
                }
                if u == z {
                    assert(seq![z][0] == z);
                }
                if seq![z].to_set().contains(u) {
                    assert(seq![z].contains(u));
                }
            }
        }
        crate::state::lemma_sorted_set_unique(to.1, seq![z]);
        let d2 = d.spec_inverse();
        crate::data::lemma_step_inverse(y, d);
        assert(to.0 == z.step(d2));
        let rest = path.subrange(i + 1, path.len() as int);
        assert forall|k: int| 0 <= k < rest.len() - 1 implies #[trigger] plain_linked(g, rem, Set::empty(), rest, k) by {
            assert(plain_linked(g, rem, Set::empty(), path, k + i + 1));
            assert(rest[k] == path[k + i + 1]);
            assert(rest[k + 1] == path[k + i + 2]);
        }
        assert(rest[0] == to);
        assert(g.in_bounds(z));
        lemma_dead_paths(g, rem, dead, z, d2, rest);
        assert(rest.last() == path.last());
    }
}

/// The dead ends are hopeless: a lone box on a cell that `mark_dead_ends` marks can never
/// be brought to a goal or the remover, from whichever free cell next to it the player
/// starts and whatever pushes it makes.
pub proof fn lemma_dead_ends_hopeless(g: Grid<MapCell>, rem: Option<Pos>, dead: Vec2d<bool>, p: Pos)
    requires
        enclosed(g),
        grid_ok(g, rem),
        forall|q: Pos| g.in_bounds(q) && #[trigger] dead.at(q) ==> free_cell(g, q),
        forall|q: Pos| g.in_bounds(q) && #[trigger] dead.at(q) ==> hopeless(g, rem, earlier_dead(g, dead, q), q),
        g.in_bounds(p),
        dead.at(p),
    ensures
        hopeless(g, rem, Set::empty(), p),
{
    assert forall|d: Dir| #[trigger] g.at(p.step(d)) != MapCell::Wall implies no_plain_solution(
        g,
        rem,
        Set::empty(),
        (p.step(d), seq![p]),
    ) by {
        assert forall|path: Seq<StateView>|
            #[trigger] plain_path(g, rem, Set::empty(), path) && path[0] == (p.step(d), seq![p]) implies !solved(
            g,
            path.last().1.to_set(),
        ) by {
            lemma_dead_paths(g, rem, dead, p, d, path);
        }
    }
}

} // verus!
