//! The solver: preprocessing of a level and an A* search over pushes.
pub mod a_star;
pub mod backtracking;
pub mod collections;
pub mod distances;
pub mod estimate;
pub mod explored;
pub mod heap;
pub mod level;
pub mod preprocessing;
pub mod simple;

use vstd::prelude::*;

use crate::data::{Dir, MapCell, Pos, MAX_BOXES};
use crate::map::{GoalMap, MapType, RemoverMap};
use crate::reach::{adj, can_enter, connected, lemma_closed_contains, lemma_connected_refl, lemma_connected_step};
use crate::solver::backtracking::{can_push, lemma_enclosed_player, player_enclosed, push_at, push_succ, pushed_boxes};
use crate::config::Method;
use crate::moves::Moves;
use crate::rules::{replay, solved};
use crate::solver::a_star::Stats;
use crate::solver::backtracking::{backtrack_prevs, links_descend, reconstruct_moves};
use crate::solver::collections::{arena_alloc, arena_new, prev_links, prevs_contains, prevs_insert, prevs_new, StateView};
use crate::solver::heap::MinHeap;
use fnv::FnvHashMap;
use typed_arena::Arena;
use crate::level::{goals_ok, is_solution, Level};
use crate::rules::apply_move;
use crate::rules::state_on_grid;
use crate::solution_formatter::{grid_ok, placement_ok};
use crate::solver::backtracking::search_state;
use crate::solver::distances::{closest_ok, closest_push_dists, push_dists, PushDists};
use crate::solver::explored::{
    boxes_free_sided, expanded_ok, lemma_after_expand, lemma_dead_box_unsolvable, lemma_exhausted, lemma_settled_after_pop, lemma_solved_estimate,
    no_solution, node_settled,
    player_by_push, push_method, solved_recognized, waiting, zero_when_solved,
};
use crate::solver::preprocessing::{check_reachability, enclosed, on_border};
use crate::state::{copy_positions, contains_pos, sorted, State};
use crate::text::{chars_of, decimal, decimal_u64, push_chars};
use crate::vec2d::{Grid, Vec2d};

verus! {

/// Why a level cannot be handed to the search.
#[derive(Clone, Copy, Debug, PartialEq, Eq, Structural)]
pub enum SolverErr {
    IncompleteBorder,
    UnreachableBoxes,
    UnreachableGoals,
    UnreachableRemover,
    TooMany,
    DiffBoxesGoals,
}

impl SolverErr {
    pub open spec fn spec_message(self) -> Seq<char> {
        match self {
            SolverErr::IncompleteBorder => "Incomplete border"@,
            SolverErr::UnreachableBoxes => "Unreachable boxes - some boxes are not on goal but can't be reached"@,
            SolverErr::UnreachableGoals => "Unreachable goals - some goals don't have a box but can't be reached"@,
            SolverErr::UnreachableRemover => "Remover is not reachable"@,
            SolverErr::TooMany => "More than "@ + decimal(MAX_BOXES as int) + " reachable boxes or goals"@,
            SolverErr::DiffBoxesGoals => "Different number of reachable boxes and goals"@,
        }
    }

    /// The message describing the error.
    pub fn to_string(&self) -> (s: String)
        ensures
            s@ == self.spec_message(),
    {
        let mut s = String::new();
        match self {
            SolverErr::IncompleteBorder => push_chars(&mut s, &chars_of("Incomplete border")),
            SolverErr::UnreachableBoxes => push_chars(
                &mut s,
                &chars_of("Unreachable boxes - some boxes are not on goal but can't be reached"),
            ),
            SolverErr::UnreachableGoals => push_chars(
                &mut s,
                &chars_of("Unreachable goals - some goals don't have a box but can't be reached"),
            ),
            SolverErr::UnreachableRemover => push_chars(&mut s, &chars_of("Remover is not reachable")),
            SolverErr::TooMany => {
                push_chars(&mut s, &chars_of("More than "));
                push_chars(&mut s, &decimal_u64(MAX_BOXES as u64));
                push_chars(&mut s, &chars_of(" reachable boxes or goals"));
            },
            SolverErr::DiffBoxesGoals => push_chars(
                &mut s,
                &chars_of("Different number of reachable boxes and goals"),
            ),
        }
        proof {
            assert(s@ =~= self.spec_message());
        }
        s
    }
}

/// The player can reach `p` from `start`, and `p` is not a wall.
pub open spec fn live_cell(g: Grid<MapCell>, start: Pos, p: Pos) -> bool {
    connected(g, Set::empty(), start, p) && g.at(p) != MapCell::Wall
}

/// The positions of `s` that the player can reach from `start`, in order.
pub open spec fn keep_reachable(g: Grid<MapCell>, start: Pos, s: Seq<Pos>) -> Seq<Pos>
    decreases s.len(),
{
    if s.len() == 0 {
        s
    } else {
        let rest = keep_reachable(g, start, s.drop_last());
        if live_cell(g, start, s.last()) {
            rest.push(s.last())
        } else {
            rest
        }
    }
}

/// The grid with every cell the player cannot reach from `start` turned into a wall.
pub open spec fn processed(g: Grid<MapCell>, start: Pos, pg: Grid<MapCell>) -> bool {
    &&& pg.wf()
    &&& pg.rows == g.rows
    &&& pg.cols == g.cols
    &&& forall|p: Pos|
        pg.in_bounds(p) ==> #[trigger] pg.at(p) == if connected(g, Set::empty(), start, p) {
            g.at(p)
        } else {
            MapCell::Wall
        }
}

/// The player can reach a cell on the border of the grid.
pub open spec fn leaks(g: Grid<MapCell>, start: Pos) -> bool {
    exists|p: Pos| #[trigger] connected(g, Set::empty(), start, p) && on_border(g, p)
}

/// Why a goal level cannot be searched, if it cannot.
pub open spec fn goals_error(g: Grid<MapCell>, player: Pos, boxes: Seq<Pos>, goals: Seq<Pos>) -> Option<SolverErr> {
    if leaks(g, player) {
        Some(SolverErr::IncompleteBorder)
    } else if exists|i: int| 0 <= i < boxes.len() && !live_cell(g, player, #[trigger] boxes[i]) && !goals.contains(boxes[i]) {
        Some(SolverErr::UnreachableBoxes)
    } else if exists|i: int| 0 <= i < goals.len() && !live_cell(g, player, #[trigger] goals[i]) && !boxes.contains(goals[i]) {
        Some(SolverErr::UnreachableGoals)
    } else if keep_reachable(g, player, boxes).len() != keep_reachable(g, player, goals).len() {
        Some(SolverErr::DiffBoxesGoals)
    } else if keep_reachable(g, player, boxes).len() > MAX_BOXES {
        Some(SolverErr::TooMany)
    } else {
        None
    }
}

/// Why a remover level cannot be searched, if it cannot.
pub open spec fn remover_error(g: Grid<MapCell>, player: Pos, boxes: Seq<Pos>, remover: Pos) -> Option<SolverErr> {
    if leaks(g, player) {
        Some(SolverErr::IncompleteBorder)
    } else if !live_cell(g, player, remover) {
        Some(SolverErr::UnreachableRemover)
    } else if exists|i: int| 0 <= i < boxes.len() && !live_cell(g, player, #[trigger] boxes[i]) {
        Some(SolverErr::UnreachableBoxes)
    } else if boxes.len() > MAX_BOXES {
        Some(SolverErr::TooMany)
    } else {
        None
    }
}

/// What the search works with: the processed map, the initial state and the push
/// distances of a lone box.
#[derive(Debug)]
pub struct StaticData {
    pub map: MapType,
    pub initial_state: State,
    pub push_dists: PushDists,
    pub closest_push_dists: Vec2d<Option<u32>>,
}

/// The data of a search is consistent: every non-wall cell is inside the border, only
/// the remover is a remover cell, the distances belong to the grid and the initial state
/// is a proper state with at most `MAX_BOXES` boxes.
pub open spec fn sd_ok(sd: &StaticData) -> bool {
    let g = sd.map.spec_grid();
    &&& g.wf()
    &&& enclosed(g)
    &&& grid_ok(g, sd.map.spec_remover())
    &&& sd.push_dists.valid_for(g)
    &&& sd.closest_push_dists.wf()
    &&& sd.closest_push_dists.rows == g.rows
    &&& sd.closest_push_dists.cols == g.cols
    &&& forall|src: Pos| g.in_bounds(src) ==> closest_ok(g, sd.push_dists, src, #[trigger] sd.closest_push_dists.at(src))
    &&& search_state(g, sd.initial_state@)
    &&& sd.initial_state.boxes@.len() <= MAX_BOXES
}

/// A level prepared for the search.
#[derive(Debug)]
pub struct Solver {
    pub sd: StaticData,
}

/// The positions of `s` whose cells in the processed grid `pg` are not walls, in order.
fn reachable_positions(pg: &Vec2d<MapCell>, s: &Vec<Pos>, Ghost(g): Ghost<Grid<MapCell>>, Ghost(start): Ghost<Pos>) -> (r: Vec<Pos>)
    requires
        processed(g, start, pg@),
        forall|i: int| 0 <= i < s@.len() ==> pg.in_bounds(#[trigger] s@[i]),
    ensures
        r@ == keep_reachable(g, start, s@),
{
    let mut r: Vec<Pos> = Vec::new();
    let mut i: usize = 0;
    while i < s.len()
        invariant
            processed(g, start, pg@),
            forall|j: int| 0 <= j < s@.len() ==> pg.in_bounds(#[trigger] s@[j]),
            i <= s@.len(),
            r@ == keep_reachable(g, start, s@.take(i as int)),
        decreases s@.len() - i,
    {
        proof {
            assert(s@.take(i as int + 1).drop_last() =~= s@.take(i as int));
            assert(pg@.at(s@[i as int]) == if connected(g, Set::empty(), start, s@[i as int]) { g.at(s@[i as int]) } else { MapCell::Wall });
        }
        if *pg.get(s[i]) != MapCell::Wall {
            r.push(s[i]);
        }
        i = i + 1;
    }
    proof {
        assert(s@.take(s@.len() as int) =~= s@);
    }
    r
}

pub proof fn lemma_keep_reachable(g: Grid<MapCell>, start: Pos, s: Seq<Pos>)
    ensures
        forall|x: Pos| #[trigger] keep_reachable(g, start, s).contains(x) <==> (s.contains(x) && live_cell(g, start, x)),
        crate::state::distinct(s) ==> crate::state::distinct(keep_reachable(g, start, s)),
        keep_reachable(g, start, s).len() <= s.len(),
    decreases s.len(),
{
    if s.len() > 0 {
        let t = s.drop_last();
        lemma_keep_reachable(g, start, t);
        let k = keep_reachable(g, start, t);
        assert forall|x: Pos| #[trigger] keep_reachable(g, start, s).contains(x) <==> (s.contains(x) && live_cell(g, start, x)) by {
            if s.contains(x) {
                let i = choose|i: int| 0 <= i < s.len() && s[i] == x;
                if i < s.len() - 1 {
                    assert(t.contains(x)) by {
                        assert(t[i] == x);
                    }
                }
            }
            if t.contains(x) {
                let i = choose|i: int| 0 <= i < t.len() && t[i] == x;
                assert(s[i] == x);
            }
            if live_cell(g, start, s.last()) {
                let kk = k.push(s.last());
                if kk.contains(x) {
                    let i = choose|i: int| 0 <= i < kk.len() && kk[i] == x;
                    if i < k.len() {
                        assert(k[i] == x);
                    }
                }
                if k.contains(x) {
                    let i = choose|i: int| 0 <= i < k.len() && k[i] == x;
                    assert(kk[i] == x);
                }
                assert(kk[k.len() as int] == s.last());
            }
        }
        if crate::state::distinct(s) && live_cell(g, start, s.last()) {
            assert(!t.contains(s.last())) by {
                if t.contains(s.last()) {
                    let i = choose|i: int| 0 <= i < t.len() && t[i] == s.last();
                    assert(s[i] == s[s.len() - 1]);
                }
            }
            assert(!k.contains(s.last()));
            let kk = k.push(s.last());
            assert forall|i: int, j: int| 0 <= i < j < kk.len() implies kk[i] != kk[j] by {
                if j == k.len() {
                    assert(k.contains(kk[i]));
                }
            }
        }
    }
}

proof fn lemma_processed_facts(g: Grid<MapCell>, start: Pos, pg: Grid<MapCell>)
    requires
        processed(g, start, pg),
        forall|p: Pos| #[trigger] connected(g, Set::empty(), start, p) ==> !on_border(g, p),
    ensures
        enclosed(pg),
        forall|p: Pos| pg.in_bounds(p) ==> (#[trigger] pg.at(p) != MapCell::Wall <==> live_cell(g, start, p)),
        forall|p: Pos| pg.in_bounds(p) && #[trigger] pg.at(p) != MapCell::Wall ==> pg.at(p) == g.at(p),
{
    assert forall|p: Pos| pg.in_bounds(p) && #[trigger] pg.at(p) != MapCell::Wall implies !on_border(pg, p) by {
        assert(connected(g, Set::empty(), start, p));
    }
}

impl Solver {
    /// Prepares a level with goals: checks that the player cannot leave it, that every
    /// box and goal the player cannot reach is paired with a goal or box, and that the
    /// reachable boxes and goals are equally many and not too many; then computes the
    /// push distances.
    pub fn new_with_goals(map: &GoalMap, state: &State) -> (r: Result<Solver, SolverErr>)
        requires
            map.grid.wf(),
            grid_ok(map.grid@, None),
            goals_ok(map.grid@, map.goals@),
            placement_ok(map.grid@, state.player_pos, state.boxes@.to_set()),
            state_on_grid(map.grid@, *state),
            sorted(state.boxes@),
            !state.boxes@.contains(state.player_pos),
        ensures
            match r {
                Err(e) => goals_error(map.grid@, state.player_pos, state.boxes@, map.goals@) == Some(e),
                Ok(solver) => {
                    &&& goals_error(map.grid@, state.player_pos, state.boxes@, map.goals@) is None
                    &&& sd_ok(&solver.sd)
                    &&& processed(map.grid@, state.player_pos, solver.sd.map.spec_grid())
                    &&& solver.sd.map.spec_remover() is None
                    &&& solver.sd.map.spec_goals() == keep_reachable(map.grid@, state.player_pos, map.goals@)
                    &&& solver.sd.initial_state.player_pos == state.player_pos
                    &&& solver.sd.initial_state.boxes@.to_multiset() == keep_reachable(
                        map.grid@,
                        state.player_pos,
                        state.boxes@,
                    ).to_multiset()
                },
            },
    {
        let ghost g = map.grid@;
        let ghost start = state.player_pos;
        let processed_grid = match check_reachability(&map.grid, state.player_pos) {
            Err(e) => {
                return Err(e);
            },
            Ok(pg) => pg,
        };
        proof {
            assert forall|p: Pos| processed_grid@.in_bounds(p) implies #[trigger] processed_grid@.at(p) == if connected(g, Set::empty(), start, p) {
                g.at(p)
            } else {
                MapCell::Wall
            } by {
                assert(processed_grid.at(p) == processed_grid@.at(p));
            }
            lemma_processed_facts(g, start, processed_grid@);
            assert(!leaks(g, start));
        }
        // make sure all relevant game elements are reachable
        let mut i: usize = 0;
        while i < state.boxes.len()
            invariant
                g == map.grid@,
                start == state.player_pos,
                processed(g, start, processed_grid@),
                forall|p: Pos| processed_grid.in_bounds(p) ==> (#[trigger] processed_grid@.at(p) != MapCell::Wall <==> live_cell(g, start, p)),
                state_on_grid(g, *state),
                !leaks(g, start),
                i <= state.boxes@.len(),
                forall|j: int| 0 <= j < i ==> live_cell(g, start, #[trigger] state.boxes@[j]) || map.goals@.contains(state.boxes@[j]),
            decreases state.boxes@.len() - i,
        {
            let pos = state.boxes[i];
            assert(processed_grid@.at(pos) == processed_grid.at(pos));
            if *processed_grid.get(pos) == MapCell::Wall && !contains_pos(&map.goals, pos) {
                proof {
                    assert(!live_cell(g, start, state.boxes@[i as int]) && !map.goals@.contains(state.boxes@[i as int]));
                    assert(!leaks(map.grid@, state.player_pos));
                    assert(exists|k: int| 0 <= k < state.boxes@.len() && !live_cell(map.grid@, state.player_pos, #[trigger] state.boxes@[k]) && !map.goals@.contains(state.boxes@[k]));
                }
                return Err(SolverErr::UnreachableBoxes);
            }
            i = i + 1;
        }
        let mut i: usize = 0;
        while i < map.goals.len()
            invariant
                g == map.grid@,
                start == state.player_pos,
                processed(g, start, processed_grid@),
                forall|p: Pos| processed_grid.in_bounds(p) ==> (#[trigger] processed_grid@.at(p) != MapCell::Wall <==> live_cell(g, start, p)),
                goals_ok(g, map.goals@),
                !leaks(g, start),
                forall|j: int| 0 <= j < state.boxes@.len() ==> live_cell(g, start, #[trigger] state.boxes@[j]) || map.goals@.contains(state.boxes@[j]),
                i <= map.goals@.len(),
                forall|j: int| 0 <= j < i ==> live_cell(g, start, #[trigger] map.goals@[j]) || state.boxes@.contains(map.goals@[j]),
            decreases map.goals@.len() - i,
        {
            let pos = map.goals[i];
            assert(processed_grid@.at(pos) == processed_grid.at(pos));
            if *processed_grid.get(pos) == MapCell::Wall && !contains_pos(&state.boxes, pos) {
                proof {
                    assert(!live_cell(g, start, map.goals@[i as int]) && !state.boxes@.contains(map.goals@[i as int]));
                }
                return Err(SolverErr::UnreachableGoals);
            }
            i = i + 1;
        }
        let reachable_boxes = reachable_positions(&processed_grid, &state.boxes, Ghost(g), Ghost(start));
        let reachable_goals = reachable_positions(&processed_grid, &map.goals, Ghost(g), Ghost(start));
        if reachable_boxes.len() != reachable_goals.len() {
            return Err(SolverErr::DiffBoxesGoals);
        }
        // at most 255 boxes so that a box index fits next to the marker of an empty cell
        if reachable_boxes.len() > MAX_BOXES {
            return Err(SolverErr::TooMany);
        }
        proof {
            lemma_keep_reachable(g, start, state.boxes@);
        }
        let ghost kept = reachable_boxes@;
        let clean_state = State::new(state.player_pos, reachable_boxes);
        let push_dists = push_dists(&processed_grid);
        let closest_push_dists = closest_push_dists(&processed_grid, &push_dists);
        let processed_map = GoalMap::new(processed_grid, reachable_goals);
        let solver = Solver {
            sd: StaticData {
                map: MapType::Goals(processed_map),
                initial_state: clean_state,
                push_dists,
                closest_push_dists,
            },
        };
        proof {
            let pg = solver.sd.map.spec_grid();
            assert(connected(g, Set::empty(), start, start)) by {
                crate::reach::lemma_connected_refl(g, Set::empty(), start);
            }
            assert(pg.at(start) == g.at(start));
            assert forall|p: Pos| pg.in_bounds(p) && #[trigger] pg.at(p) == MapCell::Remover implies None::<Pos> == Some(p) by {
                assert(g.at(p) == MapCell::Remover);
            }
            let ib = solver.sd.initial_state.boxes@;
            assert(ib.to_set() == kept.to_set());
            assert forall|k: int| 0 <= k < ib.len() implies pg.in_bounds(#[trigger] ib[k]) && pg.at(ib[k]) != MapCell::Wall && pg.at(ib[k]) != MapCell::Remover by {
                assert(ib.to_set().contains(ib[k]));
                assert(kept.contains(ib[k]));
                assert(state.boxes@.contains(ib[k]));
                let j = choose|j: int| 0 <= j < state.boxes@.len() && state.boxes@[j] == ib[k];
                assert(state.boxes@.to_set().contains(ib[k]));
            }
            assert(!ib.contains(start)) by {
                if ib.contains(start) {
                    let k = choose|k: int| 0 <= k < ib.len() && ib[k] == start;
                    assert(ib.to_set().contains(start));
                    assert(kept.contains(start));
                }
            }
            assert(search_state(pg, solver.sd.initial_state@));
        }
        Ok(solver)
    }

    /// Prepares a level with a remover: checks that the player cannot leave it and can
    /// reach the remover and every box, and that there are not too many boxes; then
    /// computes the push distances.
    pub fn new_with_remover(map: &RemoverMap, state: &State) -> (r: Result<Solver, SolverErr>)
        requires
            map.grid.wf(),
            grid_ok(map.grid@, Some(map.remover)),
            placement_ok(map.grid@, state.player_pos, state.boxes@.to_set()),
            state_on_grid(map.grid@, *state),
            sorted(state.boxes@),
            !state.boxes@.contains(state.player_pos),
        ensures
            match r {
                Err(e) => remover_error(map.grid@, state.player_pos, state.boxes@, map.remover) == Some(e),
                Ok(solver) => {
                    &&& remover_error(map.grid@, state.player_pos, state.boxes@, map.remover) is None
                    &&& sd_ok(&solver.sd)
                    &&& processed(map.grid@, state.player_pos, solver.sd.map.spec_grid())
                    &&& solver.sd.map.spec_remover() == Some(map.remover)
                    &&& solver.sd.initial_state@ == state@
                },
            },
    {
        let ghost g = map.grid@;
        let ghost start = state.player_pos;
        let processed_grid = match check_reachability(&map.grid, state.player_pos) {
            Err(e) => {
                return Err(e);
            },
            Ok(pg) => pg,
        };
        proof {
            assert forall|p: Pos| processed_grid@.in_bounds(p) implies #[trigger] processed_grid@.at(p) == if connected(g, Set::empty(), start, p) {
                g.at(p)
            } else {
                MapCell::Wall
            } by {
                assert(processed_grid.at(p) == processed_grid@.at(p));
            }
            lemma_processed_facts(g, start, processed_grid@);
            assert(!leaks(g, start));
        }
        assert(processed_grid@.at(map.remover) == processed_grid.at(map.remover));
        if *processed_grid.get(map.remover) == MapCell::Wall {
            return Err(SolverErr::UnreachableRemover);
        }
        assert(live_cell(g, start, map.remover));
        let mut i: usize = 0;
        while i < state.boxes.len()
            invariant
                g == map.grid@,
                start == state.player_pos,
                processed(g, start, processed_grid@),
                forall|p: Pos| processed_grid.in_bounds(p) ==> (#[trigger] processed_grid@.at(p) != MapCell::Wall <==> live_cell(g, start, p)),
                state_on_grid(g, *state),
                !leaks(g, start),
                live_cell(g, start, map.remover),
                i <= state.boxes@.len(),
                forall|j: int| 0 <= j < i ==> live_cell(g, start, #[trigger] state.boxes@[j]),
            decreases state.boxes@.len() - i,
        {
            assert(processed_grid@.at(state.boxes@[i as int]) == processed_grid.at(state.boxes@[i as int]));
            if *processed_grid.get(state.boxes[i]) == MapCell::Wall {
                proof {
                    assert(!live_cell(g, start, state.boxes@[i as int]));
                }
                return Err(SolverErr::UnreachableBoxes);
            }
            i = i + 1;
        }
        // a level with no boxes is valid (and already solved)
        if state.boxes.len() > MAX_BOXES {
            return Err(SolverErr::TooMany);
        }
        let push_dists = push_dists(&processed_grid);
        let closest_push_dists = closest_push_dists(&processed_grid, &push_dists);
        let processed_map = RemoverMap::new(processed_grid, map.remover);
        let solver = Solver {
            sd: StaticData {
                map: MapType::Remover(processed_map),
                initial_state: state.clone(),
                push_dists,
                closest_push_dists,
            },
        };
        proof {
            let pg = solver.sd.map.spec_grid();
            assert(connected(g, Set::empty(), start, start)) by {
                crate::reach::lemma_connected_refl(g, Set::empty(), start);
            }
            assert(pg.at(start) == g.at(start));
            assert forall|p: Pos| pg.in_bounds(p) && #[trigger] pg.at(p) == MapCell::Remover implies Some(map.remover) == Some(p) by {
                assert(g.at(p) == MapCell::Remover);
            }
            let ib = solver.sd.initial_state.boxes@;
            assert forall|k: int| 0 <= k < ib.len() implies pg.in_bounds(#[trigger] ib[k]) && pg.at(ib[k]) != MapCell::Wall && pg.at(ib[k]) != MapCell::Remover by {
                assert(live_cell(g, start, state.boxes@[k]));
                assert(state.boxes@.to_set().contains(ib[k]));
            }
            assert(search_state(pg, solver.sd.initial_state@));
        }
        Ok(solver)
    }
}

/// A grid marking the cells of `boxes`.
fn box_marks(grid: &Vec2d<MapCell>, boxes: &Vec<Pos>) -> (m: Vec2d<bool>)
    requires
        grid.wf(),
        forall|i: int| 0 <= i < boxes@.len() ==> grid.in_bounds(#[trigger] boxes@[i]),
    ensures
        m.wf(),
        m.same_dims(grid),
        forall|p: Pos| grid.in_bounds(p) ==> (#[trigger] m.at(p) <==> boxes@.to_set().contains(p)),
{
    let mut m: Vec2d<bool> = grid.scratchpad_with_default(false);
    let mut i: usize = 0;
    while i < boxes.len()
        invariant
            grid.wf(),
            m.wf(),
            m.same_dims(grid),
            i <= boxes@.len(),
            forall|j: int| 0 <= j < boxes@.len() ==> grid.in_bounds(#[trigger] boxes@[j]),
            forall|p: Pos| grid.in_bounds(p) ==> (#[trigger] m.at(p) <==> boxes@.take(i as int).contains(p)),
        decreases boxes@.len() - i,
    {
        let ghost m0 = m;
        m.set(boxes[i], true);
        proof {
            assert forall|p: Pos| grid.in_bounds(p) implies (#[trigger] m.at(p) <==> boxes@.take(i as int + 1).contains(p)) by {
                let t0 = boxes@.take(i as int);
                let t1 = boxes@.take(i as int + 1);
                assert(t1 == t0.push(boxes@[i as int]));
                if t0.contains(p) {
                    let k = choose|k: int| 0 <= k < t0.len() && t0[k] == p;
                    assert(t1[k] == p);
                }
                if t1.contains(p) && p != boxes@[i as int] {
                    let k = choose|k: int| 0 <= k < t1.len() && t1[k] == p;
                    assert(k < i);
                    assert(t0[k] == p);
                }
                if p == boxes@[i as int] {
                    assert(t1[i as int] == p);
                } else {
                    assert(m.at(p) == m0.at(p));
                }
            }
        }
        i = i + 1;
    }
    proof {
        assert(boxes@.take(boxes@.len() as int) =~= boxes@);
        assert forall|p: Pos| grid.in_bounds(p) implies (#[trigger] m.at(p) <==> boxes@.to_set().contains(p)) by {
            assert(boxes@.to_set().contains(p) <==> boxes@.contains(p));
        }
    }
    m
}

/// The first cell in reading order (the top-left one) among the cells the player can
/// walk to from `player_pos` around the boxes; states that differ only in where the
/// player stands within the same area become equal.
/// Normalizing does not depend on where in its area the player stands: when the player can
/// walk from `a` to `b`, the first cells of the areas of `a` and `b` are the same cell.
pub proof fn lemma_normalized_same_area(g: Grid<MapCell>, bs: Set<Pos>, a: Pos, b: Pos, pa: Pos, pb: Pos)
    requires
        can_enter(g, bs, a),
        connected(g, bs, a, b),
        connected(g, bs, a, pa),
        forall|q: Pos| #[trigger] connected(g, bs, a, q) ==> pa.spec_le(q),
        connected(g, bs, b, pb),
        forall|q: Pos| #[trigger] connected(g, bs, b, q) ==> pb.spec_le(q),
    ensures
        pa == pb,
{
    crate::reach::lemma_connected_trans(g, bs, a, b, pb);
    crate::reach::lemma_connected_sym(g, bs, a, b);
    crate::reach::lemma_connected_trans(g, bs, b, a, pa);
    assert(pa.spec_le(pb));
    assert(pb.spec_le(pa));
}

pub fn normalized_pos(grid: &Vec2d<MapCell>, player_pos: Pos, boxes: &Vec<Pos>) -> (p: Pos)
    requires
        grid.wf(),
        grid.in_bounds(player_pos),
        forall|i: int| 0 <= i < boxes@.len() ==> grid.in_bounds(#[trigger] boxes@[i]),
        player_enclosed(grid@, boxes@.to_set(), player_pos),
    ensures
        connected(grid@, boxes@.to_set(), player_pos, p),
        forall|q: Pos| #[trigger] connected(grid@, boxes@.to_set(), player_pos, q) ==> p.spec_le(q),
{
    let ghost g = grid@;
    let ghost bs = boxes@.to_set();
    let mut top_left = player_pos;
    let box_grid = box_marks(grid, boxes);
    let mut visited: Vec2d<bool> = grid.scratchpad_with_default(false);
    proof {
        visited.lemma_idx(player_pos);
        crate::solver::preprocessing::lemma_count_false_all(visited.data@);
        crate::solver::preprocessing::lemma_count_true_set(visited.data@, visited.idx(player_pos));
    }
    visited.set(player_pos, true);
    let mut to_visit: Vec<Pos> = Vec::new();
    to_visit.push(player_pos);
    proof {
        lemma_connected_refl(g, bs, player_pos);
        assert(to_visit@[0] == player_pos);
        assert forall|p: Pos| grid.in_bounds(p) && #[trigger] visited.at(p) implies p == player_pos by {
        }
    }
    while to_visit.len() > 0
        invariant
            g == grid@,
            bs == boxes@.to_set(),
            grid.wf(),
            visited.wf(),
            visited.same_dims(grid),
            box_grid.wf(),
            box_grid.same_dims(grid),
            forall|p: Pos| grid.in_bounds(p) ==> (#[trigger] box_grid.at(p) <==> bs.contains(p)),
            grid.in_bounds(player_pos),
            player_enclosed(g, bs, player_pos),
            visited.at(player_pos),
            connected(g, bs, player_pos, top_left),
            forall|i: int| 0 <= i < to_visit@.len() ==> {
                let p = #[trigger] to_visit@[i];
                &&& grid.in_bounds(p)
                &&& visited.at(p)
                &&& (p == player_pos || can_enter(g, bs, p))
            },
            to_visit@.no_duplicates(),
            forall|p: Pos|
                grid.in_bounds(p) && #[trigger] visited.at(p) && (p == player_pos || can_enter(g, bs, p)) ==> connected(g, bs, player_pos, p) && top_left.spec_le(p),
            forall|p: Pos, q: Pos|
                #![trigger visited.at(p), adj(p, q)]
                grid.in_bounds(p) && visited.at(p) && (p == player_pos || can_enter(g, bs, p)) && !to_visit@.contains(p) && adj(p, q) && grid.in_bounds(q) ==> visited.at(q),
        decreases visited.data@.len() - crate::solver::preprocessing::count_true(visited.data@), to_visit@.len(),
    {
        let ghost st0 = to_visit@;
        let cur = to_visit.pop().unwrap();
        proof {
            assert(st0 == to_visit@.push(cur));
            assert(st0[st0.len() - 1] == cur);
            assert(!to_visit@.contains(cur)) by {
                if to_visit@.contains(cur) {
                    let i = choose|i: int| 0 <= i < to_visit@.len() && to_visit@[i] == cur;
                    assert(st0[i] == st0[st0.len() - 1]);
                }
            }
            assert(connected(g, bs, player_pos, cur));
            assert(!on_border(g, cur));
            crate::solver::preprocessing::lemma_count_true_bound(visited.data@);
        }
        let ghost vis0 = visited;
        let ghost st1 = to_visit@;
        let mut k: usize = 0;
        while k < 4
            invariant
                g == grid@,
                bs == boxes@.to_set(),
                grid.wf(),
                visited.wf(),
                visited.same_dims(grid),
                box_grid.wf(),
                box_grid.same_dims(grid),
                forall|p: Pos| grid.in_bounds(p) ==> (#[trigger] box_grid.at(p) <==> bs.contains(p)),
                grid.in_bounds(player_pos),
                player_enclosed(g, bs, player_pos),
                grid.in_bounds(cur),
                !on_border(g, cur),
                cur.is_inner(),
                visited.at(cur),
                connected(g, bs, player_pos, cur),
                !to_visit@.contains(cur),
                0 <= k <= 4,
                st1.len() <= to_visit@.len(),
                forall|i: int| 0 <= i < st1.len() ==> to_visit@[i] == st1[i],
                forall|p: Pos| grid.in_bounds(p) && #[trigger] vis0.at(p) ==> visited.at(p),
                crate::solver::preprocessing::count_true(visited.data@) >= crate::solver::preprocessing::count_true(vis0.data@) + (to_visit@.len() - st1.len()),
                crate::solver::preprocessing::count_true(visited.data@) <= visited.data@.len(),
                visited.at(player_pos),
                connected(g, bs, player_pos, top_left),
                forall|i: int| 0 <= i < to_visit@.len() ==> {
                    let p = #[trigger] to_visit@[i];
                    &&& grid.in_bounds(p)
                    &&& visited.at(p)
                    &&& (p == player_pos || can_enter(g, bs, p))
                },
                to_visit@.no_duplicates(),
                forall|p: Pos|
                    grid.in_bounds(p) && #[trigger] visited.at(p) && (p == player_pos || can_enter(g, bs, p)) ==> connected(g, bs, player_pos, p) && top_left.spec_le(p),
                forall|p: Pos, q: Pos|
                    #![trigger visited.at(p), adj(p, q)]
                    grid.in_bounds(p) && visited.at(p) && (p == player_pos || can_enter(g, bs, p)) && !to_visit@.contains(p) && p != cur && adj(p, q) && grid.in_bounds(q) ==> visited.at(q),
                forall|j: int| 0 <= j < k ==> visited.at(#[trigger] cur.step(crate::data::spec_dir(j))),
            decreases 4 - k,
        {
            let d = crate::data::dir_from_index(k);
            let n = cur.add_dir(d);
            proof {
                crate::reach::lemma_adj_step(cur, d);
            }
            if !*visited.get(n) {
                proof {
                    visited.lemma_idx(n);
                    crate::solver::preprocessing::lemma_count_true_set(visited.data@, visited.idx(n));
                    crate::solver::preprocessing::lemma_count_true_bound(visited.data@.update(visited.idx(n), true));
                }
                let ghost v1 = visited;
                visited.set(n, true);
                if *grid.get(n) != MapCell::Wall && !*box_grid.get(n) {
                    proof {
                        lemma_connected_step(g, bs, player_pos, cur, n);
                    }
                    let ghost st2 = to_visit@;
                    to_visit.push(n);
                    if n.less_than(&top_left) {
                        top_left = n;
                    }
                    proof {
                        assert(!st2.contains(n)) by {
                            if st2.contains(n) {
                                let i = choose|i: int| 0 <= i < st2.len() && st2[i] == n;
                                assert(v1.at(n));
                            }
                        }
                        assert(to_visit@[to_visit@.len() - 1] == n);
                        assert forall|p: Pos|
                            grid.in_bounds(p) && #[trigger] visited.at(p) && (p == player_pos || can_enter(g, bs, p)) implies connected(g, bs, player_pos, p) && top_left.spec_le(p) by {
                            if p != n {
                                assert(v1.at(p));
                            }
                        }
                        assert forall|p: Pos, q: Pos|
                            #![trigger visited.at(p), adj(p, q)]
                            grid.in_bounds(p) && visited.at(p) && (p == player_pos || can_enter(g, bs, p)) && !to_visit@.contains(p) && p != cur && adj(p, q) && grid.in_bounds(q) implies visited.at(q) by {
                            if p != n {
                                assert(v1.at(p));
                                assert(!st2.contains(p)) by {
                                    if st2.contains(p) {
                                        let i = choose|i: int| 0 <= i < st2.len() && st2[i] == p;
                                        assert(to_visit@[i] == p);
                                    }
                                }
                                if q != n {
                                    assert(v1.at(q));
                                }
                            }
                        }
                    }
                } else {
                    proof {
                        assert forall|p: Pos|
                            grid.in_bounds(p) && #[trigger] visited.at(p) && (p == player_pos || can_enter(g, bs, p)) implies connected(g, bs, player_pos, p) && top_left.spec_le(p) by {
                            if p != n {
                                assert(v1.at(p));
                            } else {
                                assert(n != player_pos) by {
                                    assert(v1.at(player_pos));
                                }
                                assert(!can_enter(g, bs, n));
                            }
                        }
                        assert forall|p: Pos, q: Pos|
                            #![trigger visited.at(p), adj(p, q)]
                            grid.in_bounds(p) && visited.at(p) && (p == player_pos || can_enter(g, bs, p)) && !to_visit@.contains(p) && p != cur && adj(p, q) && grid.in_bounds(q) implies visited.at(q) by {
                            if p != n {
                                assert(v1.at(p));
                                if q != n {
                                    assert(v1.at(q));
                                }
                            } else {
                                assert(n != player_pos) by {
                                    assert(v1.at(player_pos));
                                }
                            }
                        }
                    }
                }
            }
            k = k + 1;
        }
        proof {
            assert forall|p: Pos, q: Pos|
                #![trigger visited.at(p), adj(p, q)]
                grid.in_bounds(p) && visited.at(p) && (p == player_pos || can_enter(g, bs, p)) && !to_visit@.contains(p) && adj(p, q) && grid.in_bounds(q) implies visited.at(q) by {
                if p == cur {
                    crate::reach::lemma_adj_dir(cur, q);
                    let j: int = if q.r + 1 == cur.r { 0 } else if q.c == cur.c + 1 { 1 } else if q.r == cur.r + 1 { 2 } else { 3 };
                    assert(q == cur.step(crate::data::spec_dir(j)));
                }
            }
        }
    }
    proof {
        let s = Set::new(|p: Pos| grid.in_bounds(p) && visited.at(p) && (p == player_pos || can_enter(g, bs, p)));
        assert forall|p: Pos, q: Pos|
            #![trigger s.contains(p), adj(p, q)]
            s.contains(p) && adj(p, q) && can_enter(g, bs, q) implies s.contains(q) by {
            assert(visited.at(p) && adj(p, q));
        }
        assert forall|q: Pos| #[trigger] connected(g, bs, player_pos, q) implies top_left.spec_le(q) by {
            lemma_closed_contains(g, bs, s, player_pos, q);
        }
    }
    top_left
}

/// The sum of the distances to the closest goal of all boxes, `u64::MAX` when it does not fit.
pub open spec fn push_heuristic(c: Vec2d<Option<u32>>, boxes: Seq<Pos>) -> nat
    decreases boxes.len(),
{
    if boxes.len() == 0 {
        0
    } else {
        let t: nat = push_heuristic(c, boxes.drop_last()) + match c.at(boxes.last()) {
            Some(v) => v as nat,
            None => 0nat,
        };
        if t > u64::MAX {
            u64::MAX as nat
        } else {
            t
        }
    }
}

/// The smallest Manhattan distance from the player to a box.
pub open spec fn closest_box(player: Pos, boxes: Seq<Pos>) -> int
    decreases boxes.len(),
{
    if boxes.len() == 0 {
        u16::MAX as int
    } else {
        let m = closest_box(player, boxes.drop_last());
        let d = player.spec_dist(boxes.last());
        if d < m {
            d
        } else {
            m
        }
    }
}

/// The push heuristic plus the steps the player needs at least before the next push;
/// 0 without boxes.
pub open spec fn move_heuristic(c: Vec2d<Option<u32>>, player: Pos, boxes: Seq<Pos>) -> nat {
    if boxes.len() == 0 {
        0
    } else {
        let t = closest_box(player, boxes) - 1 + push_heuristic(c, boxes);
        if t > u64::MAX {
            u64::MAX as nat
        } else {
            t as nat
        }
    }
}

/// A state the search may hold: a proper state whose boxes can all still reach a goal or
/// the remover.
pub open spec fn live(sd: &StaticData, s: StateView) -> bool {
    &&& search_state(sd.map.spec_grid(), s)
    &&& s.1.len() <= MAX_BOXES
    &&& forall|i: int| 0 <= i < s.1.len() ==> (#[trigger] sd.closest_push_dists.at(s.1[i])) is Some
}

proof fn lemma_push_heuristic_zero(c: Vec2d<Option<u32>>, boxes: Seq<Pos>)
    requires
        forall|i: int| 0 <= i < boxes.len() ==> (#[trigger] c.at(boxes[i])) is Some,
        push_heuristic(c, boxes) == 0,
    ensures
        forall|i: int| 0 <= i < boxes.len() ==> #[trigger] c.at(boxes[i]) == Some(0u32),
    decreases boxes.len(),
{
    if boxes.len() > 0 {
        let t = boxes.drop_last();
        assert forall|i: int| 0 <= i < t.len() implies (#[trigger] c.at(t[i])) is Some by {
            assert(t[i] == boxes[i]);
        }
        lemma_push_heuristic_zero(c, t);
        assert forall|i: int| 0 <= i < boxes.len() implies #[trigger] c.at(boxes[i]) == Some(0u32) by {
            if i < t.len() {
                assert(t[i] == boxes[i]);
            } else {
                assert(c.at(boxes[i]) is Some);
            }
        }
    }
}

proof fn lemma_closest_box_pos(player: Pos, boxes: Seq<Pos>)
    requires
        !boxes.contains(player),
    ensures
        closest_box(player, boxes) >= 1,
    decreases boxes.len(),
{
    if boxes.len() > 0 {
        assert(!boxes.drop_last().contains(player)) by {
            if boxes.drop_last().contains(player) {
                let i = choose|i: int| 0 <= i < boxes.drop_last().len() && boxes.drop_last()[i] == player;
                assert(boxes[i] == player);
            }
        }
        lemma_closest_box_pos(player, boxes.drop_last());
        assert(boxes.last() != player) by {
            assert(boxes[boxes.len() - 1] == boxes.last());
        }
    }
}

pub struct PushLogic;

pub struct MoveLogic;

impl PushLogic {
    /// The sum over all boxes of the number of pushes to the closest goal (or remover).
    pub fn heuristic(sd: &StaticData, state: &State) -> (h: u64)
        requires
            sd_ok(sd),
            live(sd, state@),
        ensures
            h == push_heuristic(sd.closest_push_dists, state.boxes@),
    {
        let mut goal_dist_sum: u64 = 0;
        let mut i: usize = 0;
        while i < state.boxes.len()
            invariant
                sd_ok(sd),
                live(sd, state@),
                i <= state.boxes@.len(),
                goal_dist_sum == push_heuristic(sd.closest_push_dists, state.boxes@.take(i as int)),
            decreases state.boxes@.len() - i,
        {
            let b = state.boxes[i];
            proof {
                assert(state.boxes@.take(i as int + 1).drop_last() =~= state.boxes@.take(i as int));
                assert(search_state(sd.map.spec_grid(), state@));
                assert(sd.map.spec_grid().in_bounds(state.boxes@[i as int]));
                assert((sd.closest_push_dists.at(state.boxes@[i as int])) is Some);
            }
            let v = sd.closest_push_dists.get(b).unwrap();
            goal_dist_sum = goal_dist_sum.saturating_add(v as u64);
            i = i + 1;
        }
        proof {
            assert(state.boxes@.take(state.boxes@.len() as int) =~= state.boxes@);
        }
        goal_dist_sum
    }
}

impl MoveLogic {
    /// The steps to the closest box (minus one) plus the push heuristic; 0 without boxes.
    pub fn heuristic(sd: &StaticData, state: &State) -> (h: u64)
        requires
            sd_ok(sd),
            live(sd, state@),
        ensures
            h == move_heuristic(sd.closest_push_dists, state.player_pos, state.boxes@),
    {
        if state.boxes.len() == 0 {
            return 0;
        }
        let mut closest: u16 = u16::MAX;
        let mut i: usize = 0;
        while i < state.boxes.len()
            invariant
                i <= state.boxes@.len(),
                closest == closest_box(state.player_pos, state.boxes@.take(i as int)),
            decreases state.boxes@.len() - i,
        {
            proof {
                assert(state.boxes@.take(i as int + 1).drop_last() =~= state.boxes@.take(i as int));
            }
            let d = state.player_pos.dist(state.boxes[i]);
            if d < closest {
                closest = d;
            }
            i = i + 1;
        }
        proof {
            assert(state.boxes@.take(state.boxes@.len() as int) =~= state.boxes@);
            lemma_closest_box_pos(state.player_pos, state.boxes@);
        }
        let p = PushLogic::heuristic(sd, state);
        // -1 because it is the distance until the player can push the box
        ((closest - 1) as u64).saturating_add(p)
    }
}

/// The boxes after the box at index `box_index` is pushed onto `push_dest`; on a remover
/// the box is taken away.
pub fn push_box(map: &MapType, boxes: &Vec<Pos>, box_index: usize, push_dest: Pos) -> (new_boxes: Vec<Pos>)
    requires
        grid_ok(map.spec_grid(), map.spec_remover()),
        box_index < boxes@.len(),
        crate::state::distinct(boxes@),
        map.spec_grid().in_bounds(push_dest),
        !boxes@.contains(push_dest),
    ensures
        new_boxes@.to_set() == pushed_boxes(map.spec_remover(), boxes@.to_set(), boxes@[box_index as int], push_dest),
        crate::state::distinct(new_boxes@),
        new_boxes@.len() <= boxes@.len(),
        forall|i: int| 0 <= i < new_boxes@.len() ==> #[trigger] new_boxes@[i] == push_dest || boxes@.contains(new_boxes@[i]),
        map.spec_grid().at(push_dest) == MapCell::Remover ==> !new_boxes@.contains(push_dest),
{
    let mut new_boxes = copy_positions(boxes);
    let ghost s = new_boxes@;
    proof {
        crate::state::lemma_update_to_set(s, box_index as int, push_dest);
    }
    new_boxes.set(box_index, push_dest);
    if *map.grid().get(push_dest) == MapCell::Remover {
        proof {
            let u = s.update(box_index as int, push_dest);
            crate::state::lemma_remove_to_set(u, box_index as int);
            assert(u.remove(box_index as int) =~= s.remove(box_index as int));
            crate::state::lemma_remove_to_set(s, box_index as int);
            assert(map.spec_remover() == Some(push_dest));
            assert(!u.remove(box_index as int).contains(push_dest)) by {
                if u.remove(box_index as int).contains(push_dest) {
                    let k = choose|k: int| 0 <= k < u.remove(box_index as int).len() && u.remove(box_index as int)[k] == push_dest;
                    assert(s.remove(box_index as int)[k] == push_dest);
                    assert(s.remove(box_index as int).to_set().contains(push_dest));
                }
            }
            assert forall|i: int| 0 <= i < u.remove(box_index as int).len() implies #[trigger] u.remove(box_index as int)[i] == push_dest || boxes@.contains(u.remove(box_index as int)[i]) by {
                assert(s.remove(box_index as int).to_set().contains(u.remove(box_index as int)[i]));
            }
        }
        new_boxes.remove(box_index);
    } else {
        proof {
            assert(map.spec_remover() != Some(push_dest));
            assert forall|i: int| 0 <= i < new_boxes@.len() implies #[trigger] new_boxes@[i] == push_dest || boxes@.contains(new_boxes@[i]) by {
                if i != box_index {
                    assert(new_boxes@[i] == boxes@[i]);
                }
            }
        }
    }
    new_boxes
}

/// A grid holding at every box the index of the box, 255 elsewhere.
pub(crate) fn box_indices(grid: &Vec2d<MapCell>, boxes: &Vec<Pos>) -> (m: Vec2d<u8>)
    requires
        grid.wf(),
        boxes@.len() <= MAX_BOXES,
        crate::state::distinct(boxes@),
        forall|i: int| 0 <= i < boxes@.len() ==> grid.in_bounds(#[trigger] boxes@[i]),
    ensures
        m.wf(),
        m.same_dims(grid),
        forall|p: Pos| grid.in_bounds(p) ==> (#[trigger] m.at(p) < 255 <==> boxes@.contains(p)),
        forall|p: Pos| grid.in_bounds(p) && #[trigger] m.at(p) < 255 ==> m.at(p) < boxes@.len() && boxes@[m.at(p) as int] == p,
{
    let mut m: Vec2d<u8> = grid.scratchpad_with_default(255u8);
    let mut i: usize = 0;
    while i < boxes.len()
        invariant
            grid.wf(),
            m.wf(),
            m.same_dims(grid),
            i <= boxes@.len(),
            boxes@.len() <= MAX_BOXES,
            crate::state::distinct(boxes@),
            forall|j: int| 0 <= j < boxes@.len() ==> grid.in_bounds(#[trigger] boxes@[j]),
            forall|p: Pos| grid.in_bounds(p) ==> (#[trigger] m.at(p) < 255 <==> boxes@.take(i as int).contains(p)),
            forall|p: Pos| grid.in_bounds(p) && #[trigger] m.at(p) < 255 ==> m.at(p) < i && boxes@[m.at(p) as int] == p,
        decreases boxes@.len() - i,
    {
        let ghost m0 = m;
        m.set(boxes[i], i as u8);
        proof {
            assert forall|p: Pos| grid.in_bounds(p) implies (#[trigger] m.at(p) < 255 <==> boxes@.take(i as int + 1).contains(p)) by {
                let t0 = boxes@.take(i as int);
                let t1 = boxes@.take(i as int + 1);
                assert(t1 == t0.push(boxes@[i as int]));
                if t0.contains(p) {
                    let k = choose|k: int| 0 <= k < t0.len() && t0[k] == p;
                    assert(t1[k] == p);
                }
                if t1.contains(p) && p != boxes@[i as int] {
                    let k = choose|k: int| 0 <= k < t1.len() && t1[k] == p;
                    assert(t0[k] == p);
                }
                if p == boxes@[i as int] {
                    assert(t1[i as int] == p);
                } else {
                    assert(m.at(p) == m0.at(p));
                }
            }
            assert forall|p: Pos| grid.in_bounds(p) && #[trigger] m.at(p) < 255 implies m.at(p) < i + 1 && boxes@[m.at(p) as int] == p by {
                if p != boxes@[i as int] {
                    assert(m.at(p) == m0.at(p));
                }
            }
        }
        i = i + 1;
    }
    proof {
        assert(boxes@.take(boxes@.len() as int) =~= boxes@);
    }
    m
}

/// Everything the player can do until the next push: every state that one push (after
/// any steps) leads to, with the number of moves it takes; with `normalize` the player
/// of each new state is moved to the first cell of its area. Every push of a box onto a
/// free cell from which a lone box can still reach a target is among them.
#[verifier::rlimit(80)]
#[verifier::spinoff_prover]
fn expand_pushes<'a>(sd: &StaticData, cur: &State, arena: &'a Arena<State>, normalize: bool) -> (r: Vec<(&'a State, u64)>)
    requires
        sd_ok(sd),
        live(sd, cur@),
    ensures
        forall|i: int|
            0 <= i < r@.len() ==> {
                let e = #[trigger] r@[i];
                &&& push_succ(sd.map.spec_grid(), sd.map.spec_remover(), cur@, e.0@)
                &&& live(sd, e.0@)
                &&& e.1 >= 1
            },
        forall|x: Pos, d: Dir|
            #[trigger] can_push(sd.map.spec_grid(), cur@, x, d) && sd.closest_push_dists.at(x.step(d).step(d)) is Some
                ==> exists|i: int| 0 <= i < r@.len() && push_at(sd.map.spec_grid(), sd.map.spec_remover(), cur@, r@[i].0@, x, d),
        !normalize ==> forall|i: int| 0 <= i < r@.len() ==> player_by_push(sd, cur@, (#[trigger] r@[i]).0@),
        normalize ==> forall|i: int| 0 <= i < r@.len() ==> first_of_area(sd.map.spec_grid(), (#[trigger] r@[i]).0@),
        boxes_distinct(r@),
        forall|i: int, x: Pos, d: Dir|
            #![trigger push_at(sd.map.spec_grid(), sd.map.spec_remover(), cur@, r@[i].0@, x, d)]
            0 <= i < r@.len() && push_at(sd.map.spec_grid(), sd.map.spec_remover(), cur@, r@[i].0@, x, d) ==> shortest_walk(
                sd.map.spec_grid(),
                cur.boxes@.to_set(),
                cur.player_pos,
                x,
                r@[i].1 - 1,
            ),
{
    let ghost g = sd.map.spec_grid();
    let ghost rem = sd.map.spec_remover();
    let ghost bs = cur.boxes@.to_set();
    let grid = sd.map.grid();
    let mut new_states: Vec<(&'a State, u64)> = Vec::new();
    let ghost mut ids: Seq<(int, Dir)> = Seq::empty();
    proof {
        assert(search_state(g, cur@));
        crate::state::lemma_sorted_distinct(cur.boxes@);
    }
    let box_grid = box_indices(grid, &cur.boxes);
    let mut reachable: Vec2d<bool> = grid.scratchpad_with_default(false);
    proof {
        reachable.lemma_idx(cur.player_pos);
        crate::solver::preprocessing::lemma_count_false_all(reachable.data@);
        crate::solver::preprocessing::lemma_count_true_set(reachable.data@, reachable.idx(cur.player_pos));
        lemma_connected_refl(g, bs, cur.player_pos);
        lemma_enclosed_player(g, bs, cur.player_pos);
    }
    let ghost r0 = reachable;
    reachable.set(cur.player_pos, true);
    let mut to_visit: Vec<(Pos, u64)> = Vec::new();
    to_visit.push((cur.player_pos, 0));
    let mut head: usize = 0;
    proof {
        assert(to_visit@[0].0 == cur.player_pos);
        reveal(steps_sorted);
        reveal(positions_distinct);
        reveal(boxes_distinct);
        assert(crate::reach::is_walk(g, bs, seq![cur.player_pos]));
        assert(walk_of(g, bs, cur.player_pos, to_visit@[0].0, 0));
        assert forall|q: Pos| grid.in_bounds(q) && #[trigger] reachable.at(q) implies queued(to_visit@, q) by {
            if q != cur.player_pos {
                assert(reachable.at(q) == r0.at(q));
            }
            assert(to_visit@[0].0 == q);
        }
    }
    while head < to_visit.len()
        invariant
            g == sd.map.spec_grid(),
            rem == sd.map.spec_remover(),
            bs == cur.boxes@.to_set(),
            grid@ == g,
            sd_ok(sd),
            live(sd, cur@),
            crate::state::distinct(cur.boxes@),
            grid.wf(),
            box_grid.wf(),
            box_grid.same_dims(grid),
            forall|p: Pos| grid.in_bounds(p) ==> (#[trigger] box_grid.at(p) < 255 <==> cur.boxes@.contains(p)),
            forall|p: Pos| grid.in_bounds(p) && #[trigger] box_grid.at(p) < 255 ==> box_grid.at(p) < cur.boxes@.len() && cur.boxes@[box_grid.at(p) as int] == p,
            reachable.wf(),
            reachable.same_dims(grid),
            player_enclosed(g, bs, cur.player_pos),
            head <= to_visit@.len(),
            to_visit@.len() == crate::solver::preprocessing::count_true(reachable.data@),
            forall|i: int| 0 <= i < to_visit@.len() ==> {
                let e = #[trigger] to_visit@[i];
                &&& grid.in_bounds(e.0)
                &&& connected(g, bs, cur.player_pos, e.0)
            },
            forall|i: int|
                0 <= i < new_states@.len() ==> {
                    let e = #[trigger] new_states@[i];
                    &&& push_succ(g, rem, cur@, e.0@)
                    &&& live(sd, e.0@)
                    &&& e.1 >= 1
                },
            !normalize ==> forall|i: int| 0 <= i < new_states@.len() ==> player_by_push(sd, cur@, (#[trigger] new_states@[i]).0@),
            normalize ==> forall|i: int| 0 <= i < new_states@.len() ==> first_of_area(g, (#[trigger] new_states@[i]).0@),
            to_visit@.len() > 0,
            to_visit@[0].0 == cur.player_pos,
            forall|q: Pos| grid.in_bounds(q) && #[trigger] reachable.at(q) ==> queued(to_visit@, q),
            forall|i: int, q: Pos|
                #![trigger adj(to_visit@[i].0, q)]
                0 <= i < head && adj(to_visit@[i].0, q) && can_enter(g, bs, q) ==> reachable.at(q),
            to_visit@[0].1 == 0,
            steps_sorted(to_visit@),
            head < to_visit@.len() ==> forall|j: int| 0 <= j < to_visit@.len() ==> (#[trigger] to_visit@[j]).1 <= to_visit@[head as int].1 + 1,
            forall|j: int| 0 <= j < to_visit@.len() ==> (#[trigger] to_visit@[j]).1 <= j,
            forall|j: int| 0 <= j < to_visit@.len() ==> walk_of(g, bs, cur.player_pos, (#[trigger] to_visit@[j]).0, to_visit@[j].1 as int),
            positions_distinct(to_visit@),
            forall|j: int| 0 <= j < to_visit@.len() ==> reachable.at((#[trigger] to_visit@[j]).0),
            forall|i: int, q: Pos|
                #![trigger adj(to_visit@[i].0, q)]
                0 <= i < head && adj(to_visit@[i].0, q) && can_enter(g, bs, q) ==> queued_within(to_visit@, q, to_visit@[i].1 + 1),
            ids.len() == new_states@.len(),
            forall|a: int| 0 <= a < new_states@.len() ==> id_ok(g, rem, cur@, to_visit@, (#[trigger] new_states@[a]).0@, new_states@[a].1, ids[a]),
            forall|a: int| 0 <= a < ids.len() ==> (#[trigger] ids[a]).0 * 4 + ids[a].1.spec_index() < head * 4,
            boxes_distinct(new_states@),
            forall|i: int, d: Dir|
                #![trigger can_push(g, cur@, to_visit@[i].0, d)]
                0 <= i < head && can_push(g, cur@, to_visit@[i].0, d) && sd.closest_push_dists.at(to_visit@[i].0.step(d).step(d)) is Some
                    ==> exists|j: int| 0 <= j < new_states@.len() && push_at(g, rem, cur@, new_states@[j].0@, to_visit@[i].0, d),
        decreases reachable.data@.len() - head,
    {
        proof {
            crate::solver::preprocessing::lemma_count_true_bound(reachable.data@);
        }
        let (player_pos, steps) = to_visit[head];
        head = head + 1;
        proof {
            assert(connected(g, bs, cur.player_pos, player_pos));
            assert(!on_border(g, player_pos));
        }
        let mut k: usize = 0;
        while k < 4
            invariant
                g == sd.map.spec_grid(),
                rem == sd.map.spec_remover(),
                bs == cur.boxes@.to_set(),
                grid@ == g,
                sd_ok(sd),
                live(sd, cur@),
                crate::state::distinct(cur.boxes@),
                grid.wf(),
                box_grid.wf(),
                box_grid.same_dims(grid),
                forall|p: Pos| grid.in_bounds(p) ==> (#[trigger] box_grid.at(p) < 255 <==> cur.boxes@.contains(p)),
                forall|p: Pos| grid.in_bounds(p) && #[trigger] box_grid.at(p) < 255 ==> box_grid.at(p) < cur.boxes@.len() && cur.boxes@[box_grid.at(p) as int] == p,
                reachable.wf(),
                reachable.same_dims(grid),
                player_enclosed(g, bs, cur.player_pos),
                1 <= head <= to_visit@.len(),
                to_visit@.len() == crate::solver::preprocessing::count_true(reachable.data@),
                grid.in_bounds(player_pos),
                player_pos.is_inner(),
                !on_border(g, player_pos),
                connected(g, bs, cur.player_pos, player_pos),
                player_pos == to_visit@[head - 1].0,
                k <= 4,
                forall|i: int| 0 <= i < to_visit@.len() ==> {
                    let e = #[trigger] to_visit@[i];
                    &&& grid.in_bounds(e.0)
                    &&& connected(g, bs, cur.player_pos, e.0)
                },
                forall|i: int|
                    0 <= i < new_states@.len() ==> {
                        let e = #[trigger] new_states@[i];
                        &&& push_succ(g, rem, cur@, e.0@)
                        &&& live(sd, e.0@)
                        &&& e.1 >= 1
                    },
                !normalize ==> forall|i: int| 0 <= i < new_states@.len() ==> player_by_push(sd, cur@, (#[trigger] new_states@[i]).0@),
                normalize ==> forall|i: int| 0 <= i < new_states@.len() ==> first_of_area(g, (#[trigger] new_states@[i]).0@),
                to_visit@[0].0 == cur.player_pos,
                forall|q: Pos| grid.in_bounds(q) && #[trigger] reachable.at(q) ==> queued(to_visit@, q),
                forall|i: int, q: Pos|
                    #![trigger adj(to_visit@[i].0, q)]
                    0 <= i < head - 1 && adj(to_visit@[i].0, q) && can_enter(g, bs, q) ==> reachable.at(q),
                to_visit@[0].1 == 0,
                steps_sorted(to_visit@),
                steps == to_visit@[head - 1].1,
                forall|j: int| 0 <= j < to_visit@.len() ==> (#[trigger] to_visit@[j]).1 <= steps + 1,
                forall|j: int| 0 <= j < to_visit@.len() ==> (#[trigger] to_visit@[j]).1 <= j,
                forall|j: int| 0 <= j < to_visit@.len() ==> walk_of(g, bs, cur.player_pos, (#[trigger] to_visit@[j]).0, to_visit@[j].1 as int),
                positions_distinct(to_visit@),
                forall|j: int| 0 <= j < to_visit@.len() ==> reachable.at((#[trigger] to_visit@[j]).0),
                forall|i: int, q: Pos|
                    #![trigger adj(to_visit@[i].0, q)]
                    0 <= i < head - 1 && adj(to_visit@[i].0, q) && can_enter(g, bs, q) ==> queued_within(to_visit@, q, to_visit@[i].1 + 1),
                forall|d: Dir|
                    d.spec_index() < k && #[trigger] can_enter(g, bs, player_pos.step(d)) ==> queued_within(to_visit@, player_pos.step(d), steps + 1),
                ids.len() == new_states@.len(),
                forall|a: int| 0 <= a < new_states@.len() ==> id_ok(g, rem, cur@, to_visit@, (#[trigger] new_states@[a]).0@, new_states@[a].1, ids[a]),
                forall|a: int| 0 <= a < ids.len() ==> (#[trigger] ids[a]).0 * 4 + ids[a].1.spec_index() < (head - 1) * 4 + k,
                boxes_distinct(new_states@),
                forall|i: int, d: Dir|
                    #![trigger can_push(g, cur@, to_visit@[i].0, d)]
                    0 <= i < head - 1 && can_push(g, cur@, to_visit@[i].0, d) && sd.closest_push_dists.at(to_visit@[i].0.step(d).step(d)) is Some
                        ==> exists|j: int| 0 <= j < new_states@.len() && push_at(g, rem, cur@, new_states@[j].0@, to_visit@[i].0, d),
                forall|d: Dir|
                    d.spec_index() < k && #[trigger] can_enter(g, bs, player_pos.step(d)) ==> reachable.at(player_pos.step(d)),
                forall|d: Dir|
                    d.spec_index() < k && #[trigger] can_push(g, cur@, player_pos, d) && sd.closest_push_dists.at(player_pos.step(d).step(d)) is Some
                        ==> exists|j: int| 0 <= j < new_states@.len() && push_at(g, rem, cur@, new_states@[j].0@, player_pos, d),
            decreases 4 - k,
        {
            let dir = crate::data::dir_from_index(k);
            let new_player_pos = player_pos.add_dir(dir);
            proof {
                crate::reach::lemma_adj_step(player_pos, dir);
            }
            let ghost ns0 = new_states@;
            let ghost tv0 = to_visit@;
            let ghost rv0 = reachable;
            let box_index = *box_grid.get(new_player_pos);
            if box_index < 255 {
                // the player would push the box at `new_player_pos`
                proof {
                    assert(cur.boxes@.contains(new_player_pos));
                    let bi = box_index as int;
                    assert(cur.boxes@[bi] == new_player_pos);
                    assert(g.in_bounds(cur.boxes@[bi]) && g.at(cur.boxes@[bi]) != MapCell::Wall);
                    assert(!on_border(g, new_player_pos));
                    assert(bs.contains(new_player_pos));
                }
                let push_dest = new_player_pos.add_dir(dir);
                let dest_free = *box_grid.get(push_dest) == 255;
                proof {
                    if can_push(g, cur@, player_pos, dir) {
                        assert(!cur.boxes@.contains(push_dest));
                        assert(dest_free);
                    }
                }
                if dest_free && sd.closest_push_dists.get(push_dest).is_some() {
                    proof {
                        assert(closest_ok(g, sd.push_dists, push_dest, sd.closest_push_dists.at(push_dest)));
                        let v = sd.closest_push_dists.at(push_dest).unwrap();
                        let (d2, dest2) = choose|d2: Dir, dest2: Pos| g.in_bounds(dest2) && crate::solver::distances::is_target(g, dest2) && #[trigger] sd.push_dists.dist(push_dest, d2, dest2) == Some(v);
                        assert(sd.push_dists.dist(push_dest, d2, dest2) is Some);
                        assert(g.at(push_dest) != MapCell::Wall);
                        assert(!cur.boxes@.contains(push_dest));
                    }
                    let new_boxes = push_box(&sd.map, &cur.boxes, box_index as usize, push_dest);
                    let ghost nbs = new_boxes@.to_set();
                    proof {
                        lemma_enclosed_player(g, nbs, new_player_pos);
                    }
                    let new_player = if normalize {
                        normalized_pos(grid, new_player_pos, &new_boxes)
                    } else {
                        proof {
                            lemma_connected_refl(g, nbs, new_player_pos);
                        }
                        new_player_pos
                    };
                    let new_state = arena_alloc(arena, State::new(new_player, new_boxes));
                    proof {
                        let ns = new_state@;
                        assert(ns.1.to_set() == nbs);
                        assert(push_at(g, rem, cur@, ns, player_pos, dir));
                        assert(push_succ(g, rem, cur@, ns));
                        // the new state is a proper state
                        assert(!nbs.contains(new_player_pos));
                        assert(!ns.1.contains(ns.0)) by {
                            if ns.1.contains(ns.0) {
                                assert(nbs.contains(ns.0));
                                if ns.0 != new_player_pos {
                                    let w = choose|w: Seq<Pos>| #[trigger] crate::reach::is_walk(g, nbs, w) && w[0] == new_player_pos && w.last() == ns.0;
                                    assert(can_enter(g, nbs, w[w.len() - 1]));
                                }
                            }
                        }
                        assert(g.at(ns.0) != MapCell::Wall) by {
                            if ns.0 != new_player_pos {
                                let w = choose|w: Seq<Pos>| #[trigger] crate::reach::is_walk(g, nbs, w) && w[0] == new_player_pos && w.last() == ns.0;
                                assert(can_enter(g, nbs, w[w.len() - 1]));
                            }
                        }
                        assert(g.in_bounds(ns.0));
                        assert forall|i: int| 0 <= i < ns.1.len() implies g.in_bounds(#[trigger] ns.1[i]) && g.at(ns.1[i]) != MapCell::Wall && g.at(ns.1[i]) != MapCell::Remover && (sd.closest_push_dists.at(ns.1[i])) is Some by {
                            assert(nbs.contains(ns.1[i]));
                            let k2 = choose|k2: int| 0 <= k2 < new_boxes@.len() && new_boxes@[k2] == ns.1[i];
                            if ns.1[i] != push_dest {
                                assert(cur.boxes@.contains(ns.1[i]));
                                let j = choose|j: int| 0 <= j < cur.boxes@.len() && cur.boxes@[j] == ns.1[i];
                                assert(search_state(g, cur@));
                                assert(g.in_bounds(cur.boxes@[j]));
                                assert((sd.closest_push_dists.at(cur.boxes@[j])) is Some);
                            }
                        }
                        assert(search_state(g, ns));
                        assert(live(sd, ns));
                        assert(push_at(g, rem, cur@, new_state@, to_visit@[head - 1].0, dir));
                        lemma_new_push_distinct(g, rem, cur@, to_visit@, head - 1, dir, new_states@, ids, (new_state, (steps + 1) as u64));
                    }
                    new_states.push((new_state, steps.saturating_add(1)));
                    proof {
                        assert forall|i: int|
                            0 <= i < new_states@.len() implies {
                                let e = #[trigger] new_states@[i];
                                &&& push_succ(g, rem, cur@, e.0@)
                                &&& live(sd, e.0@)
                                &&& e.1 >= 1
                            } by {
                            if i < ns0.len() {
                                assert(new_states@[i] == ns0[i]);
                            }
                        }
                        let last = ns0.len() as int;
                        assert(new_states@[last].0 == new_state);
                        assert(to_visit@[head - 1].1 <= head - 1);
                        assert(new_states@[last].1 == steps + 1);
                        assert(new_states@ == ns0.push((new_state, (steps + 1) as u64)));
                        let ids0 = ids;
                        ids = ids.push(((head - 1) as int, dir));
                        assert forall|a: int| 0 <= a < new_states@.len() implies id_ok(g, rem, cur@, to_visit@, (#[trigger] new_states@[a]).0@, new_states@[a].1, ids[a]) by {
                            if a < ns0.len() {
                                assert(new_states@[a] == ns0[a]);
                                assert(ids[a] == ids0[a]);
                            } else {
                                assert(new_states@[a].0@ == new_state@);
                                assert(push_at(g, rem, cur@, new_states@[a].0@, to_visit@[head - 1].0, dir));
                                assert(new_states@[a].1 == to_visit@[head - 1].1 + 1);
                            }
                        }
                        assert forall|a: int| 0 <= a < ids.len() implies (#[trigger] ids[a]).0 * 4 + ids[a].1.spec_index() < (head - 1) * 4 + k + 1 by {
                            if a < ids0.len() {
                                assert(ids[a] == ids0[a]);
                            }
                        }
                        if normalize {
                            assert forall|q: Pos| #[trigger] connected(g, nbs, new_state@.0, q) implies new_state@.0.spec_le(q) by {
                                crate::reach::lemma_connected_trans(g, nbs, new_player_pos, new_state@.0, q);
                            }
                            assert(first_of_area(g, new_state@));
                            assert forall|i: int| 0 <= i < new_states@.len() implies first_of_area(g, (#[trigger] new_states@[i]).0@) by {
                                if i < ns0.len() {
                                    assert(new_states@[i] == ns0[i]);
                                }
                            }
                        }
                        if !normalize {
                            assert(new_state@.0 == player_pos.step(dir));
                            assert forall|i: int| 0 <= i < new_states@.len() implies player_by_push(sd, cur@, (#[trigger] new_states@[i]).0@) by {
                                if i < ns0.len() {
                                    assert(new_states@[i] == ns0[i]);
                                } else {
                                    assert(push_at(g, rem, cur@, new_state@, player_pos, dir));
                                }
                            }
                        }
                        assert forall|i: int, d: Dir|
                            #![trigger can_push(g, cur@, to_visit@[i].0, d)]
                            0 <= i < head - 1 && can_push(g, cur@, to_visit@[i].0, d) && sd.closest_push_dists.at(to_visit@[i].0.step(d).step(d)) is Some
                                implies exists|j: int| 0 <= j < new_states@.len() && push_at(g, rem, cur@, new_states@[j].0@, to_visit@[i].0, d) by {
                            let j = choose|j: int| 0 <= j < ns0.len() && push_at(g, rem, cur@, ns0[j].0@, to_visit@[i].0, d);
                            assert(new_states@[j] == ns0[j]);
                        }
                        assert forall|d: Dir|
                            d.spec_index() < k + 1 && #[trigger] can_push(g, cur@, player_pos, d) && sd.closest_push_dists.at(player_pos.step(d).step(d)) is Some
                                implies exists|j: int| 0 <= j < new_states@.len() && push_at(g, rem, cur@, new_states@[j].0@, player_pos, d) by {
                            if d.spec_index() < k {
                                let j = choose|j: int| 0 <= j < ns0.len() && push_at(g, rem, cur@, ns0[j].0@, player_pos, d);
                                assert(new_states@[j] == ns0[j]);
                            } else {
                                assert(d == dir);
                                assert(push_at(g, rem, cur@, new_states@[last].0@, player_pos, d));
                            }
                        }
                    }
                } else {
                    proof {
                        assert forall|d: Dir|
                            d.spec_index() < k + 1 && #[trigger] can_push(g, cur@, player_pos, d) && sd.closest_push_dists.at(player_pos.step(d).step(d)) is Some
                                implies exists|j: int| 0 <= j < new_states@.len() && push_at(g, rem, cur@, new_states@[j].0@, player_pos, d) by {
                            if d.spec_index() == k {
                                assert(d == dir);
                            }
                        }
                    }
                }
                proof {
                    assert forall|d: Dir|
                        d.spec_index() < k + 1 && #[trigger] can_enter(g, bs, player_pos.step(d)) implies reachable.at(player_pos.step(d)) by {
                        if d.spec_index() == k {
                            assert(d == dir);
                        }
                    }
                    assert forall|d: Dir|
                        d.spec_index() < k + 1 && #[trigger] can_enter(g, bs, player_pos.step(d)) implies queued_within(to_visit@, player_pos.step(d), steps + 1) by {
                        if d.spec_index() == k {
                            assert(d == dir);
                        }
                    }
                }
            } else if *grid.get(new_player_pos) != MapCell::Wall && !*reachable.get(new_player_pos) {
                proof {
                    assert(!cur.boxes@.contains(new_player_pos));
                    assert(can_enter(g, bs, new_player_pos));
                    lemma_connected_step(g, bs, cur.player_pos, player_pos, new_player_pos);
                    reachable.lemma_idx(new_player_pos);
                    crate::solver::preprocessing::lemma_count_true_set(reachable.data@, reachable.idx(new_player_pos));
                }
                proof {
                    assert(to_visit@[head - 1].1 <= head - 1);
                    assert(!queued(to_visit@, new_player_pos)) by {
                        if queued(to_visit@, new_player_pos) {
                            let j = choose|j: int| 0 <= j < to_visit@.len() && (#[trigger] to_visit@[j]).0 == new_player_pos;
                            assert(reachable.at(to_visit@[j].0));
                        }
                    }
                    lemma_steps_sorted_push(to_visit@, (new_player_pos, (steps + 1) as u64));
                    lemma_positions_distinct_push(to_visit@, (new_player_pos, (steps + 1) as u64));
                    lemma_walk_extend(g, bs, cur.player_pos, player_pos, new_player_pos, steps as int);
                }
                reachable.set(new_player_pos, true);
                to_visit.push((new_player_pos, steps.saturating_add(1)));
                proof {
                    let nl = tv0.len() as int;
                    assert(to_visit@[nl] == (new_player_pos, (steps + 1) as u64));
                    assert(to_visit@ == tv0.push((new_player_pos, (steps + 1) as u64)));
                    assert forall|j: int| 0 <= j < to_visit@.len() implies {
                        &&& (#[trigger] to_visit@[j]).1 <= steps + 1
                        &&& to_visit@[j].1 <= j
                        &&& walk_of(g, bs, cur.player_pos, to_visit@[j].0, to_visit@[j].1 as int)
                        &&& reachable.at(to_visit@[j].0)
                    } by {
                        if j < nl {
                            assert(to_visit@[j] == tv0[j]);
                            if tv0[j].0 != new_player_pos {
                                assert(reachable.at(tv0[j].0) == rv0.at(tv0[j].0));
                            }
                        }
                    }
                    assert forall|i: int, q: Pos|
                        #![trigger adj(to_visit@[i].0, q)]
                        0 <= i < head - 1 && adj(to_visit@[i].0, q) && can_enter(g, bs, q) implies queued_within(to_visit@, q, to_visit@[i].1 + 1) by {
                        assert(to_visit@[i] == tv0[i]);
                        assert(adj(tv0[i].0, q));
                        let j = choose|j: int| 0 <= j < tv0.len() && (#[trigger] tv0[j]).0 == q && tv0[j].1 <= tv0[i].1 + 1;
                        assert(to_visit@[j] == tv0[j]);
                    }
                    assert forall|d: Dir|
                        d.spec_index() < k + 1 && #[trigger] can_enter(g, bs, player_pos.step(d)) implies queued_within(to_visit@, player_pos.step(d), steps + 1) by {
                        if d.spec_index() < k {
                            let j = choose|j: int| 0 <= j < tv0.len() && (#[trigger] tv0[j]).0 == player_pos.step(d) && tv0[j].1 <= steps + 1;
                            assert(to_visit@[j] == tv0[j]);
                        } else {
                            assert(d == dir);
                            assert(to_visit@[nl].0 == player_pos.step(d));
                        }
                    }
                    assert forall|a: int| 0 <= a < new_states@.len() implies id_ok(g, rem, cur@, to_visit@, (#[trigger] new_states@[a]).0@, new_states@[a].1, ids[a]) by {
                        assert(id_ok(g, rem, cur@, tv0, new_states@[a].0@, new_states@[a].1, ids[a]));
                        assert(to_visit@[ids[a].0] == tv0[ids[a].0]);
                    }
                }
                proof {
                    assert forall|i: int| 0 <= i < to_visit@.len() implies {
                        let e = #[trigger] to_visit@[i];
                        &&& grid.in_bounds(e.0)
                        &&& connected(g, bs, cur.player_pos, e.0)
                    } by {
                        if i < tv0.len() {
                            assert(to_visit@[i] == tv0[i]);
                        }
                    }
                    assert(to_visit@[tv0.len() as int].0 == new_player_pos);
                    assert forall|q: Pos| grid.in_bounds(q) && #[trigger] reachable.at(q) implies queued(to_visit@, q) by {
                        if q != new_player_pos {
                            assert(reachable.at(q) == rv0.at(q));
                            assert(queued(tv0, q));
                            let i = choose|i: int| 0 <= i < tv0.len() && (#[trigger] tv0[i]).0 == q;
                            assert(to_visit@[i] == tv0[i]);
                        } else {
                            let i = tv0.len() as int;
                            assert(to_visit@[i].0 == q);
                        }
                    }
                    assert forall|i: int, q: Pos|
                        #![trigger adj(to_visit@[i].0, q)]
                        0 <= i < head - 1 && adj(to_visit@[i].0, q) && can_enter(g, bs, q) implies reachable.at(q) by {
                        assert(to_visit@[i] == tv0[i]);
                        assert(rv0.at(q));
                        if q != new_player_pos {
                            assert(reachable.at(q) == rv0.at(q));
                        }
                    }
                    assert forall|i: int, d: Dir|
                        #![trigger can_push(g, cur@, to_visit@[i].0, d)]
                        0 <= i < head - 1 && can_push(g, cur@, to_visit@[i].0, d) && sd.closest_push_dists.at(to_visit@[i].0.step(d).step(d)) is Some
                            implies exists|j: int| 0 <= j < new_states@.len() && push_at(g, rem, cur@, new_states@[j].0@, to_visit@[i].0, d) by {
                        assert(to_visit@[i] == tv0[i]);
                    }
                    assert forall|d: Dir|
                        d.spec_index() < k + 1 && #[trigger] can_enter(g, bs, player_pos.step(d)) implies reachable.at(player_pos.step(d)) by {
                        if d.spec_index() < k {
                            assert(rv0.at(player_pos.step(d)));
                            if player_pos.step(d) != new_player_pos {
                                assert(reachable.at(player_pos.step(d)) == rv0.at(player_pos.step(d)));
                            }
                        } else {
                            assert(d == dir);
                        }
                    }
                    assert forall|d: Dir|
                        d.spec_index() < k + 1 && #[trigger] can_push(g, cur@, player_pos, d) && sd.closest_push_dists.at(player_pos.step(d).step(d)) is Some
                            implies exists|j: int| 0 <= j < new_states@.len() && push_at(g, rem, cur@, new_states@[j].0@, player_pos, d) by {
                        if d.spec_index() == k {
                            assert(d == dir);
                            assert(!bs.contains(new_player_pos));
                        }
                    }
                }
            } else {
                proof {
                    assert(!cur.boxes@.contains(new_player_pos));
                    assert forall|d: Dir|
                        d.spec_index() < k + 1 && #[trigger] can_enter(g, bs, player_pos.step(d)) implies reachable.at(player_pos.step(d)) by {
                        if d.spec_index() == k {
                            assert(d == dir);
                        }
                    }
                    assert forall|d: Dir|
                        d.spec_index() < k + 1 && #[trigger] can_enter(g, bs, player_pos.step(d)) implies queued_within(to_visit@, player_pos.step(d), steps + 1) by {
                        if d.spec_index() == k {
                            assert(d == dir);
                            assert(reachable.at(new_player_pos));
                            assert(queued(to_visit@, new_player_pos));
                            let j = choose|j: int| 0 <= j < to_visit@.len() && (#[trigger] to_visit@[j]).0 == new_player_pos;
                            assert(to_visit@[j].1 <= steps + 1);
                        }
                    }
                    assert forall|d: Dir|
                        d.spec_index() < k + 1 && #[trigger] can_push(g, cur@, player_pos, d) && sd.closest_push_dists.at(player_pos.step(d).step(d)) is Some
                            implies exists|j: int| 0 <= j < new_states@.len() && push_at(g, rem, cur@, new_states@[j].0@, player_pos, d) by {
                        if d.spec_index() == k {
                            assert(d == dir);
                            assert(!bs.contains(new_player_pos));
                        }
                    }
                }
            }
            k = k + 1;
        }
        proof {
            assert forall|i: int, q: Pos|
                #![trigger adj(to_visit@[i].0, q)]
                0 <= i < head && adj(to_visit@[i].0, q) && can_enter(g, bs, q) implies reachable.at(q) by {
                if i == head - 1 {
                    crate::reach::lemma_adj_dir(player_pos, q);
                    let idx: int = if q.r + 1 == player_pos.r {
                        0
                    } else if q.c == player_pos.c + 1 {
                        1
                    } else if q.r == player_pos.r + 1 {
                        2
                    } else {
                        3
                    };
                    let d = crate::data::spec_dir(idx);
                    assert(q == player_pos.step(d));
                    assert(can_enter(g, bs, player_pos.step(d)));
                }
            }
            assert forall|i: int, d: Dir|
                #![trigger can_push(g, cur@, to_visit@[i].0, d)]
                0 <= i < head && can_push(g, cur@, to_visit@[i].0, d) && sd.closest_push_dists.at(to_visit@[i].0.step(d).step(d)) is Some
                    implies exists|j: int| 0 <= j < new_states@.len() && push_at(g, rem, cur@, new_states@[j].0@, to_visit@[i].0, d) by {
                if i == head - 1 {
                    assert(d.spec_index() < 4);
                    assert(can_push(g, cur@, player_pos, d));
                }
            }
            assert forall|i: int, q: Pos|
                #![trigger adj(to_visit@[i].0, q)]
                0 <= i < head && adj(to_visit@[i].0, q) && can_enter(g, bs, q) implies queued_within(to_visit@, q, to_visit@[i].1 + 1) by {
                if i == head - 1 {
                    crate::reach::lemma_adj_dir(player_pos, q);
                    let idx: int = if q.r + 1 == player_pos.r {
                        0
                    } else if q.c == player_pos.c + 1 {
                        1
                    } else if q.r == player_pos.r + 1 {
                        2
                    } else {
                        3
                    };
                    let d = crate::data::spec_dir(idx);
                    assert(q == player_pos.step(d));
                    assert(can_enter(g, bs, player_pos.step(d)));
                }
            }
            if head < to_visit@.len() {
                reveal(steps_sorted);
                assert(to_visit@[head - 1].1 <= to_visit@[head as int].1);
            }
        }
    }
    proof {
        let sv = Set::new(|p: Pos| queued(to_visit@, p));
        assert forall|p: Pos, q: Pos|
            #![trigger sv.contains(p), adj(p, q)]
            sv.contains(p) && adj(p, q) && can_enter(g, bs, q) implies sv.contains(q) by {
            let i = choose|i: int| 0 <= i < to_visit@.len() && (#[trigger] to_visit@[i]).0 == p;
            assert(adj(to_visit@[i].0, q));
            assert(reachable.at(q));
        }
        assert(sv.contains(cur.player_pos)) by {
            assert(to_visit@[0].0 == cur.player_pos);
        }
        assert forall|x: Pos, d: Dir|
            #[trigger] can_push(g, cur@, x, d) && sd.closest_push_dists.at(x.step(d).step(d)) is Some implies exists|i: int|
                0 <= i < new_states@.len() && push_at(g, rem, cur@, new_states@[i].0@, x, d) by {
            lemma_closed_contains(g, bs, sv, cur.player_pos, x);
            let i = choose|i: int| 0 <= i < to_visit@.len() && (#[trigger] to_visit@[i]).0 == x;
            assert(can_push(g, cur@, to_visit@[i].0, d));
        }
        assert forall|a: int, x: Pos, d: Dir|
            #![trigger push_at(g, rem, cur@, new_states@[a].0@, x, d)]
            0 <= a < new_states@.len() && push_at(g, rem, cur@, new_states@[a].0@, x, d) implies shortest_walk(g, bs, cur.player_pos, x, new_states@[a].1 - 1) by {
            assert(id_ok(g, rem, cur@, to_visit@, new_states@[a].0@, new_states@[a].1, ids[a]));
            let (i, d2) = ids[a];
            crate::solver::backtracking::lemma_same_push(g, rem, cur@, new_states@[a].0@, x, d, to_visit@[i].0, d2);
            assert(walk_of(g, bs, cur.player_pos, to_visit@[i].0, to_visit@[i].1 as int));
            assert forall|w: Seq<Pos>| #[trigger] crate::reach::is_walk(g, bs, w) && w[0] == cur.player_pos && w.last() == x implies new_states@[a].1 - 1 + 1 <= w.len() by {
                lemma_bfs_walk(g, bs, to_visit@, w, w.len() - 1);
                let j = choose|j: int| 0 <= j < to_visit@.len() && (#[trigger] to_visit@[j]).0 == w[w.len() - 1] && to_visit@[j].1 <= w.len() - 1;
                reveal(positions_distinct);
                if j != i {
                    if j < i {
                        assert(to_visit@[j].0 != to_visit@[i].0);
                    } else {
                        assert(to_visit@[i].0 != to_visit@[j].0);
                    }
                }
            }
        }
    }
    new_states
}

/// The entry `(s, n)` comes from the push in direction `id.1` by the player at the cell
/// of the queue entry `id.0`, and `n` is one more than the steps of that entry.
pub open spec fn id_ok(
    g: Grid<MapCell>,
    rem: Option<Pos>,
    cur: StateView,
    tv: Seq<(Pos, u64)>,
    s: StateView,
    n: u64,
    id: (int, Dir),
) -> bool {
    &&& 0 <= id.0 < tv.len()
    &&& push_at(g, rem, cur, s, tv[id.0].0, id.1)
    &&& n == tv[id.0].1 + 1
}

/// No two entries hold the same boxes.
#[verifier::opaque]
pub open spec fn boxes_distinct(r: Seq<(&State, u64)>) -> bool {
    forall|a: int, b: int| 0 <= a < b < r.len() ==> (#[trigger] r[a]).0@.1 != (#[trigger] r[b]).0@.1
}

/// Two pushes from one state that leave the same boxes are the same push.
pub proof fn lemma_same_boxes_push(
    g: Grid<MapCell>,
    rem: Option<Pos>,
    cur: StateView,
    s1: StateView,
    s2: StateView,
    x1: Pos,
    d1: Dir,
    x2: Pos,
    d2: Dir,
)
    requires
        push_at(g, rem, cur, s1, x1, d1),
        push_at(g, rem, cur, s2, x2, d2),
        s1.1 == s2.1,
    ensures
        x1 == x2,
        d1 == d2,
{
    let b = cur.1.to_set();
    let y1 = x1.step(d1);
    let z1 = y1.step(d1);
    let y2 = x2.step(d2);
    let z2 = y2.step(d2);
    let p1 = pushed_boxes(rem, b, y1, z1);
    let p2 = pushed_boxes(rem, b, y2, z2);
    assert(p1 == p2);
    assert(z1 != y1);
    assert(z2 != y2);
    assert(!p1.contains(y1));
    if y1 != y2 {
        assert(p2.contains(y1));
    }
    assert(y1 == y2);
    if d1 != d2 {
        assert(z1 != z2);
        if rem == Some(z1) {
            assert(p2.contains(z2));
            assert(!p1.contains(z2));
        } else {
            assert(p1.contains(z1));
            assert(!p2.contains(z1));
        }
    }
    assert(d1 == d2);
}

/// A push from the queue entry `i` in direction `dir` that comes after every push of
/// `ns` (by the order of queue entry and direction) leaves boxes that no entry of `ns`
/// holds.
proof fn lemma_new_push_distinct(
    g: Grid<MapCell>,
    rem: Option<Pos>,
    cur: StateView,
    tv: Seq<(Pos, u64)>,
    i: int,
    dir: Dir,
    ns: Seq<(&State, u64)>,
    ids: Seq<(int, Dir)>,
    e: (&State, u64),
)
    requires
        positions_distinct(tv),
        0 <= i < tv.len(),
        push_at(g, rem, cur, e.0@, tv[i].0, dir),
        ids.len() == ns.len(),
        forall|a: int| 0 <= a < ns.len() ==> id_ok(g, rem, cur, tv, (#[trigger] ns[a]).0@, ns[a].1, ids[a]),
        forall|a: int| 0 <= a < ids.len() ==> (#[trigger] ids[a]).0 * 4 + ids[a].1.spec_index() < i * 4 + dir.spec_index(),
        boxes_distinct(ns),
    ensures
        boxes_distinct(ns.push(e)),
{
    reveal(boxes_distinct);
    reveal(positions_distinct);
    let t = ns.push(e);
    assert forall|a: int, b: int| 0 <= a < b < t.len() implies (#[trigger] t[a]).0@.1 != (#[trigger] t[b]).0@.1 by {
        assert(t[a] == ns[a]);
        if b < ns.len() {
            assert(t[b] == ns[b]);
        } else {
            assert(t[b] == e);
            if t[a].0@.1 == e.0@.1 {
                assert(id_ok(g, rem, cur, tv, ns[a].0@, ns[a].1, ids[a]));
                let j = ids[a].0;
                lemma_same_boxes_push(g, rem, cur, ns[a].0@, e.0@, tv[j].0, ids[a].1, tv[i].0, dir);
                if j != i {
                    if j < i {
                        assert(tv[j].0 != tv[i].0);
                    } else {
                        assert(tv[i].0 != tv[j].0);
                    }
                }
                assert(ids[a].0 * 4 + ids[a].1.spec_index() < i * 4 + dir.spec_index());
            }
        }
    }
}

/// The player of `s` stands on the first cell, in reading order, of the area it can walk
/// to around the boxes.
pub open spec fn first_of_area(g: Grid<MapCell>, s: StateView) -> bool {
    forall|q: Pos| #[trigger] connected(g, s.1.to_set(), s.0, q) ==> s.0.spec_le(q)
}

/// Some entry of `tv` is at `q`.
pub open spec fn queued(tv: Seq<(Pos, u64)>, q: Pos) -> bool {
    exists|i: int| 0 <= i < tv.len() && (#[trigger] tv[i]).0 == q
}

/// A walk of exactly `n` steps leads from `a` to `b` around the boxes `bs`.
pub open spec fn walk_of(g: Grid<MapCell>, bs: Set<Pos>, a: Pos, b: Pos, n: int) -> bool {
    exists|w: Seq<Pos>| #[trigger] crate::reach::is_walk(g, bs, w) && w[0] == a && w.last() == b && w.len() == n + 1
}

/// A walk of exactly `n` steps leads from `a` to `b` around the boxes `bs`, and none is
/// shorter.
pub open spec fn shortest_walk(g: Grid<MapCell>, bs: Set<Pos>, a: Pos, b: Pos, n: int) -> bool {
    &&& walk_of(g, bs, a, b, n)
    &&& forall|w: Seq<Pos>| #[trigger] crate::reach::is_walk(g, bs, w) && w[0] == a && w.last() == b ==> n + 1 <= w.len()
}

/// Some entry of `tv` is at `q`, at most `n` steps from the start.
pub open spec fn queued_within(tv: Seq<(Pos, u64)>, q: Pos, n: int) -> bool {
    exists|i: int| 0 <= i < tv.len() && (#[trigger] tv[i]).0 == q && tv[i].1 <= n
}

/// The steps of the entries never decrease along the queue.
#[verifier::opaque]
pub open spec fn steps_sorted(tv: Seq<(Pos, u64)>) -> bool {
    forall|i: int, j: int| 0 <= i <= j < tv.len() ==> (#[trigger] tv[i]).1 <= (#[trigger] tv[j]).1
}

/// No two entries of the queue are at the same cell.
#[verifier::opaque]
pub open spec fn positions_distinct(tv: Seq<(Pos, u64)>) -> bool {
    forall|i: int, j: int| 0 <= i < j < tv.len() ==> (#[trigger] tv[i]).0 != (#[trigger] tv[j]).0
}

proof fn lemma_positions_distinct_push(tv: Seq<(Pos, u64)>, e: (Pos, u64))
    requires
        positions_distinct(tv),
        !queued(tv, e.0),
    ensures
        positions_distinct(tv.push(e)),
{
    reveal(positions_distinct);
    let t = tv.push(e);
    assert forall|i: int, j: int| 0 <= i < j < t.len() implies (#[trigger] t[i]).0 != (#[trigger] t[j]).0 by {
        assert(t[i] == tv[i]);
        if j < tv.len() {
            assert(t[j] == tv[j]);
        }
    }
}


proof fn lemma_steps_sorted_push(tv: Seq<(Pos, u64)>, e: (Pos, u64))
    requires
        steps_sorted(tv),
        forall|j: int| 0 <= j < tv.len() ==> (#[trigger] tv[j]).1 <= e.1,
    ensures
        steps_sorted(tv.push(e)),
{
    reveal(steps_sorted);
    let t = tv.push(e);
    assert forall|i: int, j: int| 0 <= i <= j < t.len() implies (#[trigger] t[i]).1 <= (#[trigger] t[j]).1 by {
        if j < tv.len() {
            assert(t[i] == tv[i] && t[j] == tv[j]);
        } else if i < tv.len() {
            assert(t[i] == tv[i]);
        }
    }
}

proof fn lemma_walk_extend(g: Grid<MapCell>, bs: Set<Pos>, a: Pos, p: Pos, q: Pos, n: int)
    requires
        walk_of(g, bs, a, p, n),
        adj(p, q),
        can_enter(g, bs, q),
    ensures
        walk_of(g, bs, a, q, n + 1),
{
    let w = choose|w: Seq<Pos>| #[trigger] crate::reach::is_walk(g, bs, w) && w[0] == a && w.last() == p && w.len() == n + 1;
    let w2 = w.push(q);
    assert forall|i: int| 0 <= i < w2.len() - 1 implies #[trigger] adj(w2[i], w2[i + 1]) by {
        if i < w.len() - 1 {
            assert(adj(w[i], w[i + 1]));
        }
    }
    assert forall|i: int| 1 <= i < w2.len() implies can_enter(g, bs, #[trigger] w2[i]) by {
        if i < w.len() {
            assert(can_enter(g, bs, w[i]));
        }
    }
    assert(crate::reach::is_walk(g, bs, w2));
}

/// When every entry of a finished breadth-first search has its neighbors queued one step
/// further, the cell `t` steps along any walk from the start is queued within `t` steps.
proof fn lemma_bfs_walk(g: Grid<MapCell>, bs: Set<Pos>, tv: Seq<(Pos, u64)>, w: Seq<Pos>, t: int)
    requires
        tv.len() > 0,
        tv[0].1 == 0,
        crate::reach::is_walk(g, bs, w),
        w[0] == tv[0].0,
        0 <= t < w.len(),
        forall|i: int, q: Pos|
            #![trigger adj(tv[i].0, q)]
            0 <= i < tv.len() && adj(tv[i].0, q) && can_enter(g, bs, q) ==> queued_within(tv, q, tv[i].1 + 1),
    ensures
        queued_within(tv, w[t], t),
    decreases t,
{
    if t == 0 {
        assert(tv[0].0 == w[0]);
    } else {
        lemma_bfs_walk(g, bs, tv, w, t - 1);
        let i = choose|i: int| 0 <= i < tv.len() && (#[trigger] tv[i]).0 == w[t - 1] && tv[i].1 <= t - 1;
        assert(adj(w[t - 1], w[(t - 1) + 1]));
        assert(can_enter(g, bs, w[t]));
        assert(adj(tv[i].0, w[t]));
        let j = choose|j: int| 0 <= j < tv.len() && (#[trigger] tv[j]).0 == w[t] && tv[j].1 <= tv[i].1 + 1;
    }
}

impl PushLogic {
    /// The initial state of the search: the player moved to the first cell of its area.
    pub fn preprocess_state(sd: &StaticData, state: &State) -> (s: State)
        requires
            sd_ok(sd),
            live(sd, state@),
        ensures
            connected(sd.map.spec_grid(), state.boxes@.to_set(), state.player_pos, s.player_pos),
            s.boxes@ == state.boxes@,
            live(sd, s@),
    {
        let ghost g = sd.map.spec_grid();
        let ghost bs = state.boxes@.to_set();
        proof {
            lemma_enclosed_player(g, bs, state.player_pos);
        }
        let p = normalized_pos(sd.map.grid(), state.player_pos, &state.boxes);
        let s = State { player_pos: p, boxes: copy_positions(&state.boxes) };
        proof {
            assert(!bs.contains(p) && g.at(p) != MapCell::Wall) by {
                if p != state.player_pos {
                    let w = choose|w: Seq<Pos>| #[trigger] crate::reach::is_walk(g, bs, w) && w[0] == state.player_pos && w.last() == p;
                    assert(can_enter(g, bs, w[w.len() - 1]));
                }
            }
        }
        s
    }

    /// The states one push away, each with the player moved to the first cell of its area,
    /// and the number of pushes (one) each takes.
    /// Each push is listed once: no two entries hold the same boxes.
    pub fn expand<'a>(sd: &StaticData, cur: &State, arena: &'a Arena<State>) -> (r: Vec<(&'a State, u64)>)
        requires
            sd_ok(sd),
            live(sd, cur@),
        ensures
            forall|i: int|
                0 <= i < r@.len() ==> {
                    let e = #[trigger] r@[i];
                    &&& push_succ(sd.map.spec_grid(), sd.map.spec_remover(), cur@, e.0@)
                    &&& live(sd, e.0@)
                    &&& e.1 == 1
                    &&& first_of_area(sd.map.spec_grid(), e.0@)
                },
            forall|x: Pos, d: Dir|
                #[trigger] can_push(sd.map.spec_grid(), cur@, x, d) && sd.closest_push_dists.at(x.step(d).step(d)) is Some
                    ==> exists|i: int| 0 <= i < r@.len() && push_at(sd.map.spec_grid(), sd.map.spec_remover(), cur@, r@[i].0@, x, d),
            forall|a: int, b: int| 0 <= a < b < r@.len() ==> (#[trigger] r@[a]).0@.1 != (#[trigger] r@[b]).0@.1,
    {
        let states = expand_pushes(sd, cur, arena, true);
        let mut r: Vec<(&'a State, u64)> = Vec::new();
        let mut i: usize = 0;
        while i < states.len()
            invariant
                i <= states@.len(),
                r@.len() == i,
                forall|j: int| 0 <= j < states@.len() ==> {
                    let e = #[trigger] states@[j];
                    &&& push_succ(sd.map.spec_grid(), sd.map.spec_remover(), cur@, e.0@)
                    &&& live(sd, e.0@)
                    &&& first_of_area(sd.map.spec_grid(), e.0@)
                },
                forall|j: int| 0 <= j < i ==> (#[trigger] r@[j]).0 == states@[j].0 && r@[j].1 == 1,
                boxes_distinct(states@),
            decreases states@.len() - i,
        {
            r.push((states[i].0, 1));
            i = i + 1;
        }
        proof {
            assert forall|x: Pos, d: Dir|
                #[trigger] can_push(sd.map.spec_grid(), cur@, x, d) && sd.closest_push_dists.at(x.step(d).step(d)) is Some
                    implies exists|i: int| 0 <= i < r@.len() && push_at(sd.map.spec_grid(), sd.map.spec_remover(), cur@, r@[i].0@, x, d) by {
                let j = choose|j: int| 0 <= j < states@.len() && push_at(sd.map.spec_grid(), sd.map.spec_remover(), cur@, states@[j].0@, x, d);
                assert(r@[j].0 == states@[j].0);
            }
            reveal(boxes_distinct);
            assert forall|a: int, b: int| 0 <= a < b < r@.len() implies (#[trigger] r@[a]).0@.1 != (#[trigger] r@[b]).0@.1 by {
                assert(r@[a].0 == states@[a].0 && r@[b].0 == states@[b].0);
            }
        }
        r
    }
}

impl MoveLogic {
    /// The states one push away and the number of moves each takes: the steps of a shortest
    /// walk of the player to the box, and the push.
    /// Each push is listed once: no two entries hold the same boxes.
    pub fn expand<'a>(sd: &StaticData, cur: &State, arena: &'a Arena<State>) -> (r: Vec<(&'a State, u64)>)
        requires
            sd_ok(sd),
            live(sd, cur@),
        ensures
            forall|i: int|
                0 <= i < r@.len() ==> {
                    let e = #[trigger] r@[i];
                    &&& push_succ(sd.map.spec_grid(), sd.map.spec_remover(), cur@, e.0@)
                    &&& live(sd, e.0@)
                    &&& e.1 >= 1
                },
            forall|x: Pos, d: Dir|
                #[trigger] can_push(sd.map.spec_grid(), cur@, x, d) && sd.closest_push_dists.at(x.step(d).step(d)) is Some
                    ==> exists|i: int| 0 <= i < r@.len() && push_at(sd.map.spec_grid(), sd.map.spec_remover(), cur@, r@[i].0@, x, d),
            forall|i: int| 0 <= i < r@.len() ==> player_by_push(sd, cur@, (#[trigger] r@[i]).0@),
            forall|i: int, x: Pos, d: Dir|
                #![trigger push_at(sd.map.spec_grid(), sd.map.spec_remover(), cur@, r@[i].0@, x, d)]
                0 <= i < r@.len() && push_at(sd.map.spec_grid(), sd.map.spec_remover(), cur@, r@[i].0@, x, d) ==> shortest_walk(
                    sd.map.spec_grid(),
                    cur.boxes@.to_set(),
                    cur.player_pos,
                    x,
                    r@[i].1 - 1,
                ),
            forall|a: int, b: int| 0 <= a < b < r@.len() ==> (#[trigger] r@[a]).0@.1 != (#[trigger] r@[b]).0@.1,
    {
        let r = expand_pushes(sd, cur, arena, false);
        proof {
            reveal(boxes_distinct);
        }
        r
    }
}

/// What a search gives: a solution, if one was found, the statistics and, when asked
/// for, a progress report of every new depth reached.
#[derive(Debug)]
pub struct SolverOk {
    pub moves: Option<Moves>,
    pub stats: Stats,
    pub progress: Vec<String>,
}

impl SolverOk {
    pub fn new(moves: Option<Moves>, stats: Stats, progress: Vec<String>) -> (r: Self)
        ensures
            r.moves == moves,
            r.stats == stats,
            r.progress == progress,
    {
        SolverOk { moves, stats, progress }
    }
}

/// A node of the search: a state, the state it was reached from, the cost so far, the
/// estimate of the remaining cost, and their sum.
#[derive(Clone, Copy, Debug)]
pub struct SearchNode<'a> {
    pub state: &'a State,
    pub prev: Option<&'a State>,
    pub dist: (u64, u64),
    pub heuristic: (u64, u64),
    pub cost: (u64, u64),
}

impl<'a> SearchNode<'a> {
    pub fn new(state: &'a State, prev: Option<&'a State>, dist: (u64, u64), heuristic: (u64, u64)) -> (n: Self)
        ensures
            n.state == state,
            n.prev == prev,
            n.dist == dist,
            n.heuristic == heuristic,
            n.cost.0 == (if dist.0 + heuristic.0 > u64::MAX { u64::MAX as int } else { dist.0 + heuristic.0 }),
            n.cost.1 == (if dist.1 + heuristic.1 > u64::MAX { u64::MAX as int } else { dist.1 + heuristic.1 }),
    {
        SearchNode {
            state,
            prev,
            dist,
            heuristic,
            cost: (dist.0.saturating_add(heuristic.0), dist.1.saturating_add(heuristic.1)),
        }
    }
}

/// The cost of one expansion that takes `moves` moves (its last one a push).
pub open spec fn spec_step_cost(method: Method, moves: u64) -> (u64, u64) {
    match method {
        Method::MovesPushes => (moves, 1u64),
        Method::Moves => (moves, 0u64),
        Method::PushesMoves => (1u64, moves),
        Method::Pushes => (1u64, 0u64),
        Method::Any => (1u64, 0u64),
    }
}

/// What `method` minimises for a sequence of moves, in its order of priority: moves then
/// pushes, moves alone, pushes then moves, or pushes alone.
pub open spec fn method_cost(method: Method, ms: Seq<crate::moves::Move>) -> (nat, nat) {
    match method {
        Method::MovesPushes => (ms.len(), crate::moves::push_count(ms)),
        Method::Moves => (ms.len(), 0nat),
        Method::PushesMoves => (crate::moves::push_count(ms), ms.len()),
        Method::Pushes => (crate::moves::push_count(ms), 0nat),
        Method::Any => (crate::moves::push_count(ms), 0nat),
    }
}

/// Steps of the player without a push, and then one push: what one expansion stands for.
pub open spec fn walk_then_push(ms: Seq<crate::moves::Move>) -> bool {
    &&& ms.len() > 0
    &&& ms.last().is_push
    &&& forall|i: int| 0 <= i < ms.len() - 1 ==> !(#[trigger] ms[i]).is_push
}

proof fn lemma_walk_then_push_count(ms: Seq<crate::moves::Move>)
    requires
        walk_then_push(ms),
    ensures
        crate::moves::push_count(ms) == 1,
{
    let w = ms.drop_last();
    assert forall|i: int| 0 <= i < w.len() implies !(#[trigger] w[i]).is_push by {
        assert(w[i] == ms[i]);
    }
    lemma_no_push_count(w);
}

proof fn lemma_no_push_count(ms: Seq<crate::moves::Move>)
    requires
        forall|i: int| 0 <= i < ms.len() ==> !(#[trigger] ms[i]).is_push,
    ensures
        crate::moves::push_count(ms) == 0,
    decreases ms.len(),
{
    if ms.len() > 0 {
        let w = ms.drop_last();
        assert forall|i: int| 0 <= i < w.len() implies !(#[trigger] w[i]).is_push by {
            assert(w[i] == ms[i]);
        }
        lemma_no_push_count(w);
        assert(!ms[ms.len() - 1].is_push);
    }
}

/// The number of pushes of two sequences of moves one after the other is the sum of theirs.
pub proof fn lemma_push_count_concat(a: Seq<crate::moves::Move>, b: Seq<crate::moves::Move>)
    ensures
        crate::moves::push_count(a + b) == crate::moves::push_count(a) + crate::moves::push_count(b),
    decreases b.len(),
{
    if b.len() == 0 {
        assert(a + b =~= a);
    } else {
        assert((a + b).drop_last() =~= a + b.drop_last());
        assert((a + b).last() == b.last());
        lemma_push_count_concat(a, b.drop_last());
    }
}

/// The cost of moves one after the other is the sum of their costs: the cost the search
/// adds up along a path is the cost of all the moves of that path.
pub proof fn lemma_method_cost_concat(method: Method, a: Seq<crate::moves::Move>, b: Seq<crate::moves::Move>)
    ensures
        method_cost(method, a + b).0 == method_cost(method, a).0 + method_cost(method, b).0,
        method_cost(method, a + b).1 == method_cost(method, a).1 + method_cost(method, b).1,
{
    lemma_push_count_concat(a, b);
}

/// The cost the search charges for one expansion that takes `n` moves, a walk and then a
/// push, is what the method minimises for those moves: under every method, and for every
/// such sequence of moves.
pub proof fn lemma_step_cost_counts(method: Method, ms: Seq<crate::moves::Move>)
    requires
        walk_then_push(ms),
        ms.len() <= u64::MAX,
    ensures
        spec_step_cost(method, ms.len() as u64).0 as nat == method_cost(method, ms).0,
        spec_step_cost(method, ms.len() as u64).1 as nat == method_cost(method, ms).1,
{
    lemma_walk_then_push_count(ms);
}

/// The estimate of the remaining cost of a state.
pub open spec fn spec_heuristic(method: Method, c: Vec2d<Option<u32>>, s: StateView) -> (u64, u64) {
    let m = move_heuristic(c, s.0, s.1) as u64;
    let p = push_heuristic(c, s.1) as u64;
    match method {
        Method::MovesPushes => (m, p),
        Method::Moves => (m, 0u64),
        Method::PushesMoves => (p, m),
        Method::Pushes => (p, 0u64),
        Method::Any => (p, 0u64),
    }
}

fn step_cost(method: Method, moves: u64) -> (c: (u64, u64))
    ensures
        c == spec_step_cost(method, moves),
        forall|ms: Seq<crate::moves::Move>|
            #[trigger] walk_then_push(ms) && ms.len() == moves ==> c.0 as nat == method_cost(method, ms).0 && c.1 as nat
                == method_cost(method, ms).1,
{
    proof {
        assert forall|ms: Seq<crate::moves::Move>|
            #[trigger] walk_then_push(ms) && ms.len() == moves implies spec_step_cost(method, moves).0 as nat == method_cost(method, ms).0
                && spec_step_cost(method, moves).1 as nat == method_cost(method, ms).1 by {
            lemma_step_cost_counts(method, ms);
        }
    }
    match method {
        Method::MovesPushes => (moves, 1),
        Method::Moves => (moves, 0),
        Method::PushesMoves => (1, moves),
        Method::Pushes => (1, 0),
        Method::Any => (1, 0),
    }
}

fn heuristic_of(method: Method, sd: &StaticData, state: &State) -> (h: (u64, u64))
    requires
        sd_ok(sd),
        live(sd, state@),
    ensures
        h == spec_heuristic(method, sd.closest_push_dists, state@),
{
    match method {
        Method::MovesPushes => (MoveLogic::heuristic(sd, state), PushLogic::heuristic(sd, state)),
        Method::Moves => (MoveLogic::heuristic(sd, state), 0),
        Method::PushesMoves => (PushLogic::heuristic(sd, state), MoveLogic::heuristic(sd, state)),
        Method::Pushes => (PushLogic::heuristic(sd, state), 0),
        Method::Any => (PushLogic::heuristic(sd, state), 0),
    }
}

/// A state whose estimate is zero is solved.
proof fn lemma_zero_heuristic_solved(sd: &StaticData, method: Method, s: StateView)
    requires
        sd_ok(sd),
        live(sd, s),
        spec_heuristic(method, sd.closest_push_dists, s) == (0u64, 0u64),
    ensures
        solved(sd.map.spec_grid(), s.1.to_set()),
{
    let g = sd.map.spec_grid();
    let c = sd.closest_push_dists;
    if s.1.len() > 0 {
        lemma_closest_box_pos(s.0, s.1);
        assert(push_heuristic(c, s.1) == 0);
        lemma_push_heuristic_zero(c, s.1);
    }
    assert forall|b: Pos| s.1.to_set().contains(b) implies g.at(b) == MapCell::Goal by {
        let i = choose|i: int| 0 <= i < s.1.len() && s.1[i] == b;
        assert(c.at(s.1[i]) == Some(0u32));
        assert(g.in_bounds(b));
        assert(closest_ok(g, sd.push_dists, b, c.at(b)));
        let (d, dest) = choose|d: Dir, dest: Pos| g.in_bounds(dest) && crate::solver::distances::is_target(g, dest) && #[trigger] sd.push_dists.dist(b, d, dest) == Some(0u32);
        assert(sd.push_dists.dist(b, d, dest) == Some(0u32));
        assert(dest == b);
    }
}

/// The progress line of a new depth: "Visited new depth: " and the depth.
pub(crate) fn depth_message(depth: u64) -> (s: String)
    ensures
        s@ == "Visited new depth: "@ + crate::text::decimal_nat(depth as nat),
{
    let mut s = String::new();
    push_chars(&mut s, &chars_of("Visited new depth: "));
    push_chars(&mut s, &decimal_u64(depth));
    proof {
        reveal_strlit("Visited new depth: ");
    }
    s
}

/// Every expanded state is a proper state; the root links to itself and every other
/// state links to an earlier expanded state one push before it.
pub open spec fn prevs_ok(sd: &StaticData, pm: Map<StateView, StateView>, ord: Map<StateView, nat>, cnt: nat, root: StateView) -> bool {
    forall|k: StateView|
        #[trigger] pm.contains_key(k) ==> {
            &&& live(sd, k)
            &&& ord.contains_key(k)
            &&& ord[k] < cnt
            &&& (pm[k] == k ==> k == root)
            &&& (pm[k] != k ==> pm.contains_key(pm[k]) && ord[pm[k]] < ord[k] && push_succ(
                sd.map.spec_grid(),
                sd.map.spec_remover(),
                pm[k],
                k,
            ))
        }
}

/// Every node holds a proper state with its estimate; the first node holds the root and
/// every other node comes one push after an expanded state.
pub open spec fn nodes_ok(sd: &StaticData, method: Method, nodes: Seq<SearchNode>, pm: Map<StateView, StateView>, root: StateView) -> bool {
    forall|j: int|
        0 <= j < nodes.len() ==> {
            let n = #[trigger] nodes[j];
            &&& live(sd, n.state@)
            &&& n.heuristic == spec_heuristic(method, sd.closest_push_dists, n.state@)
            &&& (n.prev is None ==> n.state@ == root)
            &&& (n.prev matches Some(p) ==> pm.contains_key(p@) && push_succ(
                sd.map.spec_grid(),
                sd.map.spec_remover(),
                p@,
                n.state@,
            ))
        }
}

/// Every entry of the heap names a node.
pub open spec fn heap_ok(h: vstd::multiset::Multiset<(u64, u64, usize)>, n: nat) -> bool {
    forall|x: (u64, u64, usize)| #[trigger] h.contains(x) ==> x.2 < n
}

pub(crate) proof fn lemma_heap_ok_remove(h: vstd::multiset::Multiset<(u64, u64, usize)>, x: (u64, u64, usize), n: nat)
    requires
        heap_ok(h, n),
    ensures
        heap_ok(h.remove(x), n),
{
    broadcast use vstd::multiset::group_multiset_axioms;

    assert forall|y: (u64, u64, usize)| #[trigger] h.remove(x).contains(y) implies y.2 < n by {
        assert(h.contains(y));
    }
}

/// Expanding a node: its state becomes a key of the map of previous states.
proof fn lemma_prevs_insert(
    sd: &StaticData,
    method: Method,
    nodes: Seq<SearchNode>,
    pm0: Map<StateView, StateView>,
    ord: Map<StateView, nat>,
    cnt: nat,
    root: StateView,
    node: SearchNode,
    prev_v: StateView,
)
    requires
        prevs_ok(sd, pm0, ord, cnt, root),
        !pm0.contains_key(node.state@),
        live(sd, node.state@),
        node.prev is None ==> node.state@ == root && prev_v == node.state@,
        node.prev matches Some(p) ==> pm0.contains_key(p@) && push_succ(sd.map.spec_grid(), sd.map.spec_remover(), p@, node.state@) && prev_v == p@,
        nodes_ok(sd, method, nodes, pm0, root),
    ensures
        prevs_ok(sd, pm0.insert(node.state@, prev_v), ord.insert(node.state@, cnt), cnt + 1, root),
        nodes_ok(sd, method, nodes, pm0.insert(node.state@, prev_v), root),
{
    let k = node.state@;
    let pm = pm0.insert(k, prev_v);
    let ord2 = ord.insert(k, cnt);
    assert forall|k2: StateView| #[trigger] pm.contains_key(k2) implies {
        &&& live(sd, k2)
        &&& ord2.contains_key(k2)
        &&& ord2[k2] < cnt + 1
        &&& (pm[k2] == k2 ==> k2 == root)
        &&& (pm[k2] != k2 ==> pm.contains_key(pm[k2]) && ord2[pm[k2]] < ord2[k2] && push_succ(
            sd.map.spec_grid(),
            sd.map.spec_remover(),
            pm[k2],
            k2,
        ))
    } by {
        if k2 != k {
            assert(pm0.contains_key(k2));
            if pm[k2] != k2 {
                assert(pm0.contains_key(pm0[k2]));
            }
        } else {
            if let Some(p) = node.prev {
                assert(pm0.contains_key(p@));
                assert(p@ != k);
            }
        }
    }
    assert forall|j: int| 0 <= j < nodes.len() implies {
        let n = #[trigger] nodes[j];
        &&& live(sd, n.state@)
        &&& n.heuristic == spec_heuristic(method, sd.closest_push_dists, n.state@)
        &&& (n.prev is None ==> n.state@ == root)
        &&& (n.prev matches Some(p) ==> pm.contains_key(p@) && push_succ(
            sd.map.spec_grid(),
            sd.map.spec_remover(),
            p@,
            n.state@,
        ))
    } by {
        let n = nodes[j];
        if let Some(p) = n.prev {
            assert(pm0.contains_key(p@));
        }
    }
}

/// Adds a node for every neighbor of `cur` to the nodes and the heap.
fn push_neighbors<'a>(
    sd: &StaticData,
    method: Method,
    cur: SearchNode<'a>,
    neighbors: &Vec<(&'a State, u64)>,
    nodes: &mut Vec<SearchNode<'a>>,
    to_visit: &mut MinHeap,
    stats: &mut Stats,
    Ghost(pm): Ghost<Map<StateView, StateView>>,
    Ghost(root): Ghost<StateView>,
)
    requires
        sd_ok(sd),
        pm.contains_key(cur.state@),
        forall|a: int|
            0 <= a < neighbors@.len() ==> {
                let e = #[trigger] neighbors@[a];
                &&& push_succ(sd.map.spec_grid(), sd.map.spec_remover(), cur.state@, e.0@)
                &&& live(sd, e.0@)
            },
        forall|a: int| 0 <= a < neighbors@.len() ==> push_method(method) || player_by_push(sd, cur.state@, (#[trigger] neighbors@[a]).0@),
        old(to_visit).wf(),
        heap_ok(old(to_visit)@, old(nodes)@.len() as nat),
        nodes_ok(sd, method, old(nodes)@, pm, root),
        forall|j: int| 0 <= j < old(nodes)@.len() ==> #[trigger] zero_when_solved(sd, method, old(nodes)@[j]),
    ensures
        final(to_visit).wf(),
        heap_ok(final(to_visit)@, final(nodes)@.len() as nat),
        nodes_ok(sd, method, final(nodes)@, pm, root),
        forall|j: int| 0 <= j < final(nodes)@.len() ==> #[trigger] zero_when_solved(sd, method, final(nodes)@[j]),
        final(nodes)@.len() == old(nodes)@.len() + neighbors@.len(),
        final(to_visit)@.len() == old(to_visit)@.len() + neighbors@.len(),
        forall|j: int| 0 <= j < old(nodes)@.len() ==> final(nodes)@[j] == old(nodes)@[j],
        forall|a: int| 0 <= a < neighbors@.len() ==> final(nodes)@[old(nodes)@.len() + a].state == (#[trigger] neighbors@[a]).0,
        forall|a: int|
            0 <= a < neighbors@.len() ==> final(nodes)@[old(
                nodes,
            )@.len() + a].dist == (
                cur.dist.0.saturating_add(spec_step_cost(method, (#[trigger] neighbors@[a]).1).0),
                cur.dist.1.saturating_add(spec_step_cost(method, neighbors@[a].1).1),
            ),
        forall|j: int| 0 <= j < old(nodes)@.len() && waiting(old(to_visit)@, j) ==> #[trigger] waiting(final(to_visit)@, j),
        forall|j: int| old(nodes)@.len() <= j < final(nodes)@.len() ==> #[trigger] waiting(final(to_visit)@, j),
{
    let ghost nodes_in = nodes@;
    let ghost heap_in = to_visit@;
    let mut j: usize = 0;
    while j < neighbors.len()
        invariant
            sd_ok(sd),
            pm.contains_key(cur.state@),
            forall|a: int|
                0 <= a < neighbors@.len() ==> {
                    let e = #[trigger] neighbors@[a];
                    &&& push_succ(sd.map.spec_grid(), sd.map.spec_remover(), cur.state@, e.0@)
                    &&& live(sd, e.0@)
                },
            forall|a: int| 0 <= a < neighbors@.len() ==> push_method(method) || player_by_push(sd, cur.state@, (#[trigger] neighbors@[a]).0@),
            to_visit.wf(),
            heap_ok(to_visit@, nodes@.len() as nat),
            nodes_ok(sd, method, nodes@, pm, root),
            j <= neighbors@.len(),
            forall|i: int| 0 <= i < nodes@.len() ==> #[trigger] zero_when_solved(sd, method, nodes@[i]),
            nodes@.len() == nodes_in.len() + j,
            to_visit@.len() == heap_in.len() + j,
            forall|i: int| 0 <= i < nodes_in.len() ==> nodes@[i] == nodes_in[i],
            forall|a: int| 0 <= a < j ==> nodes@[nodes_in.len() + a].state == (#[trigger] neighbors@[a]).0,
            forall|a: int|
                0 <= a < j ==> nodes@[nodes_in.len() + a].dist == (
                    cur.dist.0.saturating_add(spec_step_cost(method, (#[trigger] neighbors@[a]).1).0),
                    cur.dist.1.saturating_add(spec_step_cost(method, neighbors@[a].1).1),
                ),
            forall|i: int| 0 <= i < nodes_in.len() && waiting(heap_in, i) ==> #[trigger] waiting(to_visit@, i),
            forall|i: int| nodes_in.len() <= i < nodes@.len() ==> #[trigger] waiting(to_visit@, i),
        decreases neighbors@.len() - j,
    {
        let (neighbor_state, moves_cnt) = neighbors[j];
        assert(live(sd, neighbors@[j as int].0@));
        let c = step_cost(method, moves_cnt);
        let h = heuristic_of(method, sd, neighbor_state);
        let next_node = SearchNode::new(
            neighbor_state,
            Some(cur.state),
            (cur.dist.0.saturating_add(c.0), cur.dist.1.saturating_add(c.1)),
            h,
        );
        stats.add_created(#[verifier::truncate] (next_node.dist.0 as usize));
        let idx = nodes.len();
        let ghost nodes0 = nodes@;
        let ghost heap0 = to_visit@;
        nodes.push(next_node);
        to_visit.push((next_node.cost.0, next_node.cost.1, idx));
        proof {
            assert(nodes@[idx as int] == next_node);
            assert forall|a: int| 0 <= a < nodes@.len() implies {
                let n = #[trigger] nodes@[a];
                &&& live(sd, n.state@)
                &&& n.heuristic == spec_heuristic(method, sd.closest_push_dists, n.state@)
                &&& (n.prev is None ==> n.state@ == root)
                &&& (n.prev matches Some(p) ==> pm.contains_key(p@) && push_succ(
                    sd.map.spec_grid(),
                    sd.map.spec_remover(),
                    p@,
                    n.state@,
                ))
            } by {
                if a < nodes0.len() {
                    assert(nodes@[a] == nodes0[a]);
                }
            }
            assert forall|x: (u64, u64, usize)| #[trigger] to_visit@.contains(x) implies x.2 < nodes@.len() by {
                if x != (next_node.cost.0, next_node.cost.1, idx) {
                    assert(heap0.contains(x));
                }
            }
            assert(zero_when_solved(sd, method, next_node)) by {
                if solved_recognized(sd, method) && solved(sd.map.spec_grid(), next_node.state@.1.to_set()) {
                    lemma_solved_estimate(sd, method, cur.state@, next_node.state@);
                }
            }
            assert forall|i: int| 0 <= i < nodes@.len() implies #[trigger] zero_when_solved(sd, method, nodes@[i]) by {
                if i < nodes0.len() {
                    assert(nodes@[i] == nodes0[i]);
                }
            }
            let item = (next_node.cost.0, next_node.cost.1, idx);
            assert(to_visit@ == heap0.insert(item));
            assert forall|i: int| 0 <= i < nodes_in.len() && waiting(heap_in, i) implies #[trigger] waiting(to_visit@, i) by {
                assert(waiting(heap0, i));
                let e = choose|e: (u64, u64, usize)| #[trigger] heap0.contains(e) && e.2 == i;
                assert(to_visit@.contains(e));
            }
            assert forall|i: int| nodes_in.len() <= i < nodes@.len() implies #[trigger] waiting(to_visit@, i) by {
                if i < idx {
                    assert(waiting(heap0, i));
                    let e = choose|e: (u64, u64, usize)| #[trigger] heap0.contains(e) && e.2 == i;
                    assert(to_visit@.contains(e));
                } else {
                    assert(to_visit@.contains(item));
                }
            }
            assert forall|a: int| 0 <= a < j + 1 implies nodes@[nodes_in.len() + a].state == (#[trigger] neighbors@[a]).0 by {
                if a < j {
                    assert(nodes@[nodes_in.len() + a] == nodes0[nodes_in.len() + a]);
                }
            }
            assert forall|a: int|
                0 <= a < j + 1 implies nodes@[nodes_in.len() + a].dist == (
                    cur.dist.0.saturating_add(spec_step_cost(method, (#[trigger] neighbors@[a]).1).0),
                    cur.dist.1.saturating_add(spec_step_cost(method, neighbors@[a].1).1),
                ) by {
                if a < j {
                    assert(nodes@[nodes_in.len() + a] == nodes0[nodes_in.len() + a]);
                    assert(nodes0[nodes_in.len() + a].dist == (
                        cur.dist.0.saturating_add(spec_step_cost(method, neighbors@[a].1).0),
                        cur.dist.1.saturating_add(spec_step_cost(method, neighbors@[a].1).1),
                    ));
                } else {
                    assert(a == j);
                    assert(neighbors@[a].1 == moves_cnt);
                    assert(c == spec_step_cost(method, moves_cnt));
                    assert(nodes@[nodes_in.len() + a] == next_node);
                    assert(next_node.dist == (cur.dist.0.saturating_add(c.0), cur.dist.1.saturating_add(c.1)));
                }
            }
        }
        j = j + 1;
    }
}

/// The moves that lead from the initial state to the solved state `state`, following
/// the map of previous states back to the root.
fn solution_moves<'a>(
    sd: &StaticData,
    prevs: &FnvHashMap<&'a State, &'a State>,
    state: &'a State,
    Ghost(ord): Ghost<Map<StateView, nat>>,
    Ghost(cnt): Ghost<nat>,
    Ghost(root): Ghost<StateView>,
) -> (moves: Moves)
    requires
        sd_ok(sd),
        prevs_ok(sd, prev_links(*prevs), ord, cnt, root),
        prev_links(*prevs).contains_key(state@),
        root.1 == sd.initial_state@.1,
        connected(sd.map.spec_grid(), sd.initial_state.boxes@.to_set(), sd.initial_state.player_pos, root.0),
    ensures
        replay(
            sd.map.spec_grid(),
            sd.map.spec_remover(),
            sd.initial_state.player_pos,
            sd.initial_state.boxes@.to_set(),
            moves@,
        ) matches Some((_, b)) && b == state.boxes@.to_set(),
{
    let ghost g = sd.map.spec_grid();
    let ghost rem = sd.map.spec_remover();
    let ghost pm = prev_links(*prevs);
    proof {
        let order = |k: StateView| ord[k];
        assert(links_descend(pm, order));
        crate::solver::backtracking::lemma_descend_chain(pm, order, state@);
    }
    let chain = backtrack_prevs(prevs, state);
    proof {
        assert(pm.contains_key(chain@[0]@));
        assert(chain@[0]@ == root);
        assert forall|j: int| 0 <= j < chain@.len() - 1 implies #[trigger] push_succ(g, rem, chain@[j]@, chain@[j + 1]@) by {
            assert(pm.contains_key(chain@[j + 1]@));
            assert(pm[chain@[j + 1]@] == chain@[j]@);
        }
        assert forall|a: int, b: int| 0 <= a < chain@.len() && 0 <= b < chain@[a].boxes@.len() implies g.in_bounds(#[trigger] chain@[a].boxes@[b]) by {
            assert(pm.contains_key(chain@[a]@));
            assert(live(sd, chain@[a]@));
            assert(search_state(g, chain@[a]@));
        }
        assert(search_state(g, sd.initial_state@));
    }
    reconstruct_moves(sd.map.grid(), sd.map.remover(), sd.initial_state.player_pos, &chain)
}

/// A search whose queue ran empty has shown that no moves solve the level.
proof fn lemma_search_exhausted(
    sd: &StaticData,
    method: Method,
    h: vstd::multiset::Multiset<(u64, u64, usize)>,
    nodes: Seq<SearchNode>,
    pm: Map<StateView, StateView>,
    root: StateView,
)
    requires
        sd_ok(sd),
        h.len() == 0,
        root.1 == sd.initial_state@.1,
        connected(sd.map.spec_grid(), root.1.to_set(), sd.initial_state@.0, root.0),
        nodes.len() > 0,
        nodes[0].state@ == root,
        forall|j: int| 0 <= j < nodes.len() ==> #[trigger] node_settled(h, pm, nodes, j),
        forall|k: StateView| #[trigger] pm.contains_key(k) ==> expanded_ok(sd, method, nodes, k),
    ensures
        solved_recognized(sd, method) && boxes_free_sided(sd) ==> no_solution(
            sd.map.spec_grid(),
            sd.map.spec_remover(),
            sd.initial_state@.0,
            sd.initial_state@.1.to_set(),
        ),
{
    assert(h =~= vstd::multiset::Multiset::empty()) by {
        broadcast use vstd::multiset::group_multiset_axioms;
    }
    if solved_recognized(sd, method) && boxes_free_sided(sd) {
        lemma_exhausted(sd, method, nodes, pm, root);
    }
}

impl Solver {
    /// A* search from the initial state, cheapest estimated total cost first. Each state
    /// is expanded once; the first expanded state whose estimate is zero is solved and
    /// the moves leading to it are returned. When nothing is found, no moves solve the
    /// level (where every box has a free side and solved states are recognized). The moves
    /// and the statistics come from one run that does not depend on `print_status`, which
    /// only decides whether the progress report is handed back.
    pub fn search(&self, method: Method, print_status: bool) -> (r: SolverOk)
        requires
            sd_ok(&self.sd),
        ensures
            r.moves matches Some(m) ==> (replay(
                self.sd.map.spec_grid(),
                self.sd.map.spec_remover(),
                self.sd.initial_state.player_pos,
                self.sd.initial_state.boxes@.to_set(),
                m@,
            ) matches Some((_, b)) && solved(self.sd.map.spec_grid(), b)),
            live(&self.sd, self.sd.initial_state@) && solved(
                self.sd.map.spec_grid(),
                self.sd.initial_state.boxes@.to_set(),
            ) ==> (r.moves matches Some(m) && m@.len() == 0 && r.stats.is_empty()),
            (exists|i: int|
                0 <= i < self.sd.initial_state.boxes@.len() && (#[trigger] self.sd.closest_push_dists.at(
                    self.sd.initial_state.boxes@[i],
                )) is None) ==> (r.moves is None && r.stats.is_empty()),
            !print_status ==> r.progress@.len() == 0,
            r.moves is None && solved_recognized(&self.sd, method) && boxes_free_sided(&self.sd) ==> no_solution(
                self.sd.map.spec_grid(),
                self.sd.map.spec_remover(),
                self.sd.initial_state.player_pos,
                self.sd.initial_state.boxes@.to_set(),
            ),
    {
        let mut r = self.search_reporting(method);
        if !print_status {
            r.progress = Vec::new();
        }
        r
    }

    /// The search of `search`, with the progress report of every new depth.
    fn search_reporting(&self, method: Method) -> (r: SolverOk)
        requires
            sd_ok(&self.sd),
        ensures
            r.moves matches Some(m) ==> (replay(
                self.sd.map.spec_grid(),
                self.sd.map.spec_remover(),
                self.sd.initial_state.player_pos,
                self.sd.initial_state.boxes@.to_set(),
                m@,
            ) matches Some((_, b)) && solved(self.sd.map.spec_grid(), b)),
            live(&self.sd, self.sd.initial_state@) && solved(
                self.sd.map.spec_grid(),
                self.sd.initial_state.boxes@.to_set(),
            ) ==> (r.moves matches Some(m) && m@.len() == 0 && r.stats.is_empty()),
            (exists|i: int|
                0 <= i < self.sd.initial_state.boxes@.len() && (#[trigger] self.sd.closest_push_dists.at(
                    self.sd.initial_state.boxes@[i],
                )) is None) ==> (r.moves is None && r.stats.is_empty()),
            r.moves is None && solved_recognized(&self.sd, method) && boxes_free_sided(&self.sd) ==> no_solution(
                self.sd.map.spec_grid(),
                self.sd.map.spec_remover(),
                self.sd.initial_state.player_pos,
                self.sd.initial_state.boxes@.to_set(),
            ),
    {
        let sd = &self.sd;
        let ghost g = sd.map.spec_grid();
        let ghost rem = sd.map.spec_remover();
        let ghost init = sd.initial_state@;
        let mut stats = Stats::new();
        let mut progress: Vec<String> = Vec::new();
        // boxes that can't reach any goal: such states are never generated but the initial one has to be checked
        let mut i: usize = 0;
        while i < sd.initial_state.boxes.len()
            invariant
                sd == &self.sd,
                sd_ok(sd),
                i <= sd.initial_state.boxes@.len(),
                forall|j: int| 0 <= j < i ==> (#[trigger] sd.closest_push_dists.at(sd.initial_state.boxes@[j])) is Some,
                progress@.len() == 0,
                stats.is_empty(),
            decreases sd.initial_state.boxes@.len() - i,
        {
            proof {
                assert(search_state(sd.map.spec_grid(), sd.initial_state@));
                assert(sd.map.spec_grid().in_bounds(sd.initial_state.boxes@[i as int]));
            }
            if sd.closest_push_dists.get(sd.initial_state.boxes[i]).is_none() {
                proof {
                    if boxes_free_sided(sd) {
                        lemma_dead_box_unsolvable(sd, i as int);
                    }
                }
                return SolverOk::new(None, stats, progress);
            }
            i = i + 1;
        }
        assert(live(sd, sd.initial_state@));
        // already solved
        let mut all_on_goals = true;
        let mut i: usize = 0;
        while i < sd.initial_state.boxes.len()
            invariant
                sd_ok(sd),
                i <= sd.initial_state.boxes@.len(),
                all_on_goals == forall|j: int| 0 <= j < i ==> sd.map.spec_grid().at(#[trigger] sd.initial_state.boxes@[j]) == MapCell::Goal,
                stats.is_empty(),
            decreases sd.initial_state.boxes@.len() - i,
        {
            proof {
                assert(search_state(sd.map.spec_grid(), sd.initial_state@));
                assert(sd.map.spec_grid().in_bounds(sd.initial_state.boxes@[i as int]));
            }
            if *sd.map.grid().get(sd.initial_state.boxes[i]) != MapCell::Goal {
                all_on_goals = false;
            }
            i = i + 1;
        }
        proof {
            if solved(g, init.1.to_set()) {
                assert forall|j: int| 0 <= j < init.1.len() implies g.at(#[trigger] init.1[j]) == MapCell::Goal by {
                    assert(init.1.to_set().contains(init.1[j]));
                }
            }
        }
        if all_on_goals {
            let m = Moves::default();
            proof {
                assert forall|b: Pos| init.1.to_set().contains(b) implies g.at(b) == MapCell::Goal by {
                    let j = choose|j: int| 0 <= j < init.1.len() && init.1[j] == b;
                    assert(g.at(sd.initial_state.boxes@[j]) == MapCell::Goal);
                }
                assert(replay(g, rem, init.0, init.1.to_set(), m@) == Some((init.0, init.1.to_set())));
            }
            return SolverOk::new(Some(m), stats, progress);
        }
        let push_logic = method == Method::Pushes || method == Method::Any;
        // the initial state, with the player moved to the first cell of its area when searching over pushes
        let root_state = if push_logic {
            PushLogic::preprocess_state(sd, &sd.initial_state)
        } else {
            proof {
                lemma_connected_refl(g, init.1.to_set(), init.0);
            }
            sd.initial_state.clone()
        };
        let states = arena_new();
        let root = arena_alloc(&states, root_state);
        let ghost root_v = root@;
        let mut to_visit = MinHeap::new();
        let mut nodes: Vec<SearchNode> = Vec::new();
        let mut prevs = prevs_new();
        let ghost mut ord: Map<StateView, nat> = Map::empty();
        let ghost mut cnt: nat = 0;
        let h0 = heuristic_of(method, sd, root);
        let start = SearchNode::new(root, None, (0, 0), h0);
        stats.add_created(0);
        nodes.push(start);
        to_visit.push((start.cost.0, start.cost.1, 0));
        proof {
            assert(nodes@[0] == start);
            assert(nodes_ok(sd, method, nodes@, prev_links(prevs), root_v));
            assert(heap_ok(to_visit@, nodes@.len() as nat));
        }
        let mut budget: u64 = u64::MAX;
        proof {
            assert(nodes@[0] == start);
            assert(waiting(to_visit@, 0)) by {
                assert(to_visit@.contains((start.cost.0, start.cost.1, 0usize)));
            }
            assert(node_settled(to_visit@, prev_links(prevs), nodes@, 0));
            assert(zero_when_solved(sd, method, nodes@[0]));
        }
        while budget > 0
            invariant
                sd == &self.sd,
                sd_ok(sd),
                init == sd.initial_state@,
                push_logic == push_method(method),
                root_v.1 == init.1,
                connected(sd.map.spec_grid(), init.1.to_set(), init.0, root_v.0),
                to_visit.wf(),
                heap_ok(to_visit@, nodes@.len() as nat),
                nodes_ok(sd, method, nodes@, prev_links(prevs), root_v),
                prevs_ok(sd, prev_links(prevs), ord, cnt, root_v),
                !solved(sd.map.spec_grid(), init.1.to_set()),
                nodes@.len() > 0,
                nodes@[0].state@ == root_v,
                (u64::MAX - budget) + to_visit@.len() <= nodes.len(),
                forall|j: int| 0 <= j < nodes@.len() ==> #[trigger] zero_when_solved(sd, method, nodes@[j]),
                forall|j: int| 0 <= j < nodes@.len() ==> #[trigger] node_settled(to_visit@, prev_links(prevs), nodes@, j),
                forall|k: StateView| #[trigger] prev_links(prevs).contains_key(k) ==> expanded_ok(sd, method, nodes@, k),
            decreases budget,
        {
            budget = budget - 1;
            let ghost heap0 = to_visit@;
            let item = match to_visit.pop() {
                None => {
                    proof {
                        lemma_search_exhausted(sd, method, to_visit@, nodes@, prev_links(prevs), root_v);
                    }
                    return SolverOk::new(None, stats, progress);
                },
                Some(x) => x,
            };
            proof {
                lemma_heap_ok_remove(heap0, item, nodes@.len() as nat);
                assert(heap0.contains(item));
                lemma_settled_after_pop(heap0, item, prev_links(prevs), nodes@);
                assert(to_visit@.len() == heap0.len() - 1) by {
                    broadcast use vstd::multiset::group_multiset_axioms;
                }
            }
            let cur_node = nodes[item.2];
            if prevs_contains(&prevs, cur_node.state) {
                stats.add_reached_duplicate(#[verifier::truncate] (cur_node.dist.0 as usize));
                proof {
                    assert(node_settled(to_visit@, prev_links(prevs), nodes@, item.2 as int));
                }
                continue;
            }
            if stats.add_unique_visited(#[verifier::truncate] (cur_node.dist.0 as usize)) {
                progress.push(depth_message(cur_node.dist.0));
                progress.push(stats.summary());
            }
            // insert when expanding and not when generating, otherwise a longer path could
            // overwrite the shortest one
            let ghost pm0 = prev_links(prevs);
            let prev_state = match cur_node.prev {
                Some(p) => p,
                None => cur_node.state,
            };
            prevs_insert(&mut prevs, cur_node.state, prev_state);
            proof {
                lemma_prevs_insert(sd, method, nodes@, pm0, ord, cnt, root_v, cur_node, prev_state@);
                ord = ord.insert(cur_node.state@, cnt);
                cnt = cnt + 1;
            }
            if cur_node.heuristic.0 == 0 && cur_node.heuristic.1 == 0 {
                // the estimate is zero, so the level is solved
                proof {
                    lemma_zero_heuristic_solved(sd, method, cur_node.state@);
                }
                let moves = solution_moves(sd, &prevs, cur_node.state, Ghost(ord), Ghost(cnt), Ghost(root_v));
                proof {
                    let rp = replay(sd.map.spec_grid(), sd.map.spec_remover(), sd.initial_state.player_pos, sd.initial_state.boxes@.to_set(), moves@);
                    assert(rp is Some);
                    assert(rp.unwrap().1 == cur_node.state.boxes@.to_set());
                    assert(solved(sd.map.spec_grid(), cur_node.state@.1.to_set()));
                }
                return SolverOk::new(Some(moves), stats, progress);
            }
            proof {
                assert(zero_when_solved(sd, method, nodes@[item.2 as int]));
                if cur_node.prev is None {
                    assert(cur_node.state@ == root_v);
                }
            }
            let neighbors = if push_logic {
                PushLogic::expand(sd, cur_node.state, &states)
            } else {
                MoveLogic::expand(sd, cur_node.state, &states)
            };
            let ghost nodes1 = nodes@;
            let ghost heap1 = to_visit@;
            push_neighbors(sd, method, cur_node, &neighbors, &mut nodes, &mut to_visit, &mut stats, Ghost(prev_links(prevs)), Ghost(root_v));
            proof {
                let nb = Seq::new(neighbors@.len(), |a: int| neighbors@[a].0@);
                assert forall|a: int| 0 <= a < nb.len() implies nodes@[nodes1.len() + a].state@ == #[trigger] nb[a] by {
                    assert(nodes@[nodes1.len() + a].state == neighbors@[a].0);
                }
                assert forall|x: Pos, d: Dir|
                    #[trigger] can_push(sd.map.spec_grid(), nodes1[item.2 as int].state@, x, d) && sd.closest_push_dists.at(x.step(d).step(d)) is Some
                        implies exists|i: int| 0 <= i < nb.len() && push_at(sd.map.spec_grid(), sd.map.spec_remover(), nodes1[item.2 as int].state@, nb[i], x, d) by {
                    assert(nodes1[item.2 as int] == cur_node);
                    assert(can_push(sd.map.spec_grid(), cur_node.state@, x, d));
                    let i = choose|i: int| 0 <= i < neighbors@.len() && push_at(sd.map.spec_grid(), sd.map.spec_remover(), cur_node.state@, neighbors@[i].0@, x, d);
                    assert(nb[i] == neighbors@[i].0@);
                }
                assert(prev_links(prevs).dom() =~= pm0.dom().insert(nodes1[item.2 as int].state@));
                assert forall|k: StateView| #[trigger] pm0.contains_key(k) implies expanded_ok(sd, method, nodes1, k) by {
                    assert(prev_links(prevs).contains_key(k));
                }
                lemma_after_expand(sd, method, heap1, to_visit@, pm0, prev_links(prevs), nodes1, nodes@, item.2 as int, nb);
            }
        }
        proof {
            assert(to_visit@.len() == 0);
            assert(to_visit@ =~= vstd::multiset::Multiset::empty()) by {
                broadcast use vstd::multiset::group_multiset_axioms;
            }
            lemma_search_exhausted(sd, method, to_visit@, nodes@, prev_links(prevs), root_v);
        }
        SolverOk::new(None, stats, progress)
    }
}

/// The search takes every solved state of the level it reaches for solved: it counts
/// pushes only, or the level has goals, or its grid has no goal cells.
pub open spec fn level_recognized(level: &Level, method: Method) -> bool {
    ||| push_method(method)
    ||| level.map is Goals
    ||| forall|p: Pos| level.map.spec_grid().in_bounds(p) ==> level.map.spec_grid().at(p) != MapCell::Goal
}

/// Why a level cannot be searched, if it cannot.
pub open spec fn level_error(level: &Level) -> Option<SolverErr> {
    match level.map {
        MapType::Goals(gm) => goals_error(gm.grid@, level.state.player_pos, level.state.boxes@, gm.goals@),
        MapType::Remover(rm) => remover_error(rm.grid@, level.state.player_pos, level.state.boxes@, rm.remover),
    }
}

/// Moves allowed on the processed grid are allowed on the original grid, where the boxes
/// the player cannot reach stand on cells that the processed grid turned into walls.
proof fn lemma_replay_lift(
    g: Grid<MapCell>,
    start: Pos,
    pg: Grid<MapCell>,
    remover: Option<Pos>,
    player: Pos,
    boxes: Set<Pos>,
    dropped: Set<Pos>,
    moves: Seq<crate::moves::Move>,
)
    requires
        processed(g, start, pg),
        forall|p: Pos| #[trigger] dropped.contains(p) ==> !live_cell(g, start, p),
        replay(pg, remover, player, boxes, moves) is Some,
    ensures
        replay(g, remover, player, boxes.union(dropped), moves) == Some((
            replay(pg, remover, player, boxes, moves).unwrap().0,
            replay(pg, remover, player, boxes, moves).unwrap().1.union(dropped),
        )),
    decreases moves.len(),
{
    if moves.len() > 0 {
        let prev = moves.drop_last();
        lemma_replay_lift(g, start, pg, remover, player, boxes, dropped, prev);
        let (p, b) = replay(pg, remover, player, boxes, prev).unwrap();
        let m = moves.last();
        assert(apply_move(pg, remover, p, b, m) is Some);
        let np = crate::rules::step_on(pg, p, m.dir).unwrap();
        assert(crate::rules::step_on(g, p, m.dir) == Some(np));
        assert(pg.at(np) != MapCell::Wall);
        assert(connected(g, Set::empty(), start, np));
        assert(g.at(np) == pg.at(np));
        assert(!dropped.contains(np));
        if m.is_push {
            let nb = crate::rules::step_on(pg, np, m.dir).unwrap();
            assert(crate::rules::step_on(g, np, m.dir) == Some(nb));
            assert(pg.at(nb) != MapCell::Wall);
            assert(connected(g, Set::empty(), start, nb));
            assert(!dropped.contains(nb));
            assert(b.remove(np).union(dropped) =~= b.union(dropped).remove(np));
            assert(b.remove(np).insert(nb).union(dropped) =~= b.union(dropped).remove(np).insert(nb));
        }
    }
}

/// Moves allowed on the original grid are allowed on the processed grid without the
/// boxes the player cannot reach: the player only walks on cells it can reach, and those
/// boxes never move.
proof fn lemma_replay_lower(
    g: Grid<MapCell>,
    start: Pos,
    pg: Grid<MapCell>,
    remover: Option<Pos>,
    boxes: Set<Pos>,
    dropped: Set<Pos>,
    moves: Seq<crate::moves::Move>,
)
    requires
        processed(g, start, pg),
        dropped.subset_of(boxes),
        forall|p: Pos| #[trigger] dropped.contains(p) ==> !live_cell(g, start, p),
        forall|p: Pos| #[trigger] boxes.contains(p) && !dropped.contains(p) ==> live_cell(g, start, p),
        replay(g, remover, start, boxes, moves) is Some,
    ensures
        replay(pg, remover, start, boxes.difference(dropped), moves) == Some((
            replay(g, remover, start, boxes, moves).unwrap().0,
            replay(g, remover, start, boxes, moves).unwrap().1.difference(dropped),
        )),
        connected(g, Set::empty(), start, replay(g, remover, start, boxes, moves).unwrap().0),
        dropped.subset_of(replay(g, remover, start, boxes, moves).unwrap().1),
        forall|p: Pos|
            #[trigger] replay(g, remover, start, boxes, moves).unwrap().1.contains(p) && !dropped.contains(p) ==> live_cell(g, start, p),
    decreases moves.len(),
{
    if moves.len() == 0 {
        lemma_connected_refl(g, Set::empty(), start);
    } else {
        let prev = moves.drop_last();
        lemma_replay_lower(g, start, pg, remover, boxes, dropped, prev);
        let (p, b) = replay(g, remover, start, boxes, prev).unwrap();
        let m = moves.last();
        let (p1, b1) = apply_move(g, remover, p, b, m).unwrap();
        let np = crate::rules::step_on(g, p, m.dir).unwrap();
        assert(crate::rules::step_on(pg, p, m.dir) == Some(np));
        assert(adj(p, np));
        assert(can_enter(g, Set::empty(), np));
        lemma_connected_step(g, Set::empty(), start, p, np);
        assert(pg.at(np) == g.at(np));
        if m.is_push {
            assert(live_cell(g, start, np));
            assert(!dropped.contains(np));
            let nb = crate::rules::step_on(g, np, m.dir).unwrap();
            assert(crate::rules::step_on(pg, np, m.dir) == Some(nb));
            assert(adj(np, nb));
            assert(can_enter(g, Set::empty(), nb));
            lemma_connected_step(g, Set::empty(), start, np, nb);
            assert(pg.at(nb) == g.at(nb));
            assert(b.difference(dropped).remove(np) =~= b.remove(np).difference(dropped));
            assert(b.difference(dropped).remove(np).insert(nb) =~= b.remove(np).insert(nb).difference(dropped));
        }
    }
}

/// A box on a cell the player can reach from a free cell has a free side on the
/// processed grid: the cell the player comes from last.
proof fn lemma_free_side(g: Grid<MapCell>, start: Pos, pg: Grid<MapCell>, b: Pos)
    requires
        processed(g, start, pg),
        enclosed(pg),
        g.in_bounds(start),
        g.at(start) != MapCell::Wall,
        live_cell(g, start, b),
        b != start,
    ensures
        crate::solver::explored::has_free_side(pg, b),
{
    let w = choose|w: Seq<Pos>| #[trigger] crate::reach::is_walk(g, Set::empty(), w) && w[0] == start && w.last() == b;
    let i = w.len() - 2;
    let q = w[i];
    assert(adj(w[i], w[i + 1]));
    crate::reach::lemma_connected_walk_prefix(g, Set::empty(), w, i);
    if i > 0 {
        assert(can_enter(g, Set::empty(), w[i]));
    }
    assert(pg.at(q) == g.at(q));
    assert(pg.at(b) == g.at(b));
    assert(!on_border(pg, b));
    crate::reach::lemma_adj_dir(b, q);
    let d = crate::data::spec_dir(if q.r + 1 == b.r {
        0
    } else if q.c == b.c + 1 {
        1
    } else if q.r == b.r + 1 {
        2
    } else {
        3
    });
    assert(pg.in_bounds(b.step(d)) && pg.at(b.step(d)) != MapCell::Wall);
}

/// After moves allowed from the initial state, the boxes still stand on the grid.
proof fn lemma_placed_after(sd: &StaticData, moves: Seq<crate::moves::Move>)
    requires
        sd_ok(sd),
        replay(sd.map.spec_grid(), sd.map.spec_remover(), sd.initial_state.player_pos, sd.initial_state.boxes@.to_set(), moves) is Some,
    ensures
        forall|b: Pos| replay(sd.map.spec_grid(), sd.map.spec_remover(), sd.initial_state.player_pos, sd.initial_state.boxes@.to_set(), moves).unwrap().1.contains(b)
            ==> #[trigger] sd.map.spec_grid().in_bounds(b),
{
    let g = sd.map.spec_grid();
    let ib = sd.initial_state.boxes@;
    assert(search_state(g, sd.initial_state@));
    assert forall|b: Pos| #[trigger] ib.to_set().contains(b) implies g.in_bounds(b) && g.at(b) != MapCell::Wall && g.at(b) != MapCell::Remover by {
        let i = choose|i: int| 0 <= i < ib.len() && ib[i] == b;
    }
    crate::solution_formatter::lemma_replay_keeps_placement(g, sd.map.spec_remover(), sd.initial_state.player_pos, ib.to_set(), moves);
}

/// Solving a level.
pub trait Solve {
    /// The level can be handed to the solver.
    spec fn solvable(&self) -> bool;

    fn solve(&self, method: Method, print_status: bool) -> Result<SolverOk, SolverErr>
        requires
            self.solvable(),
    ;
}

impl Solve for Level {
    open spec fn solvable(&self) -> bool {
        self.wf()
    }

    /// Preprocesses the level and searches for a solution with `method`. Fails exactly
    /// when the preprocessing does; any solution found solves the level, and where none is
    /// found, no moves solve it.
    fn solve(&self, method: Method, print_status: bool) -> (r: Result<SolverOk, SolverErr>)
        ensures
            match r {
                Err(e) => level_error(self) == Some(e),
                Ok(ok) => {
                    &&& level_error(self) is None
                    &&& ok.moves matches Some(m) ==> is_solution(self, m@)
                    &&& ok.moves is None && level_recognized(self, method) ==> forall|m: Seq<crate::moves::Move>|
                        !#[trigger] is_solution(self, m)
                    &&& is_solution(self, Seq::empty()) ==> (ok.moves matches Some(m) && m@.len() == 0)
                    &&& !print_status ==> ok.progress@.len() == 0
                },
            },
    {
        let ghost player = self.state.player_pos;
        let ghost boxes = self.state.boxes@;
        match &self.map {
            MapType::Goals(goals_map) => {
                let solver = Solver::new_with_goals(goals_map, &self.state)?;
                proof {
                    let g = goals_map.grid@;
                    let pg = solver.sd.map.spec_grid();
                    let ib = solver.sd.initial_state.boxes@;
                    let kept = keep_reachable(g, player, boxes);
                    lemma_keep_reachable(g, player, boxes);
                    assert forall|i: int| 0 <= i < ib.len() implies crate::solver::explored::has_free_side(pg, #[trigger] ib[i]) by {
                        crate::state::lemma_multiset_to_set(ib, kept);
                        assert(ib.to_set().contains(ib[i]));
                        assert(kept.to_set().contains(ib[i]));
                        assert(kept.contains(ib[i]));
                        assert(boxes.contains(ib[i]));
                        lemma_free_side(g, player, pg, ib[i]);
                    }
                    assert(boxes_free_sided(&solver.sd));
                    if is_solution(self, Seq::empty()) {
                        crate::state::lemma_multiset_to_set(ib, kept);
                        assert forall|b: Pos| ib.to_set().contains(b) implies pg.at(b) == MapCell::Goal by {
                            assert(kept.to_set().contains(b));
                            assert(kept.contains(b));
                            assert(boxes.to_set().contains(b));
                        }
                        crate::solver::explored::lemma_solved_start_live(&solver.sd);
                    }
                }
                let r = solver.search(method, print_status);
                proof {
                    if r.moves is None && level_recognized(self, method) {
                        let g = goals_map.grid@;
                        let pg = solver.sd.map.spec_grid();
                        let kept = keep_reachable(g, player, boxes);
                        let ib = solver.sd.initial_state.boxes@;
                        crate::state::lemma_multiset_to_set(ib, kept);
                        lemma_keep_reachable(g, player, boxes);
                        let dropped = boxes.to_set().filter(|p: Pos| !live_cell(g, player, p));
                        assert(boxes.to_set().difference(dropped) =~= ib.to_set()) by {
                            assert forall|p: Pos| #[trigger] boxes.to_set().difference(dropped).contains(p) implies ib.to_set().contains(p) by {
                                assert(kept.contains(p));
                            }
                        }
                        assert forall|m: Seq<crate::moves::Move>| !#[trigger] is_solution(self, m) by {
                            if is_solution(self, m) {
                                lemma_replay_lower(g, player, pg, None, boxes.to_set(), dropped, m);
                                let (_, b) = replay(g, None, player, boxes.to_set(), m).unwrap();
                                assert(replay(pg, None, player, ib.to_set(), m) == Some((replay(g, None, player, boxes.to_set(), m).unwrap().0, b.difference(dropped))));
                                assert(solved(pg, b.difference(dropped)));
                            }
                        }
                    }
                    if r.moves is Some {
                        let m = r.moves.unwrap();
                        let g = goals_map.grid@;
                        let pg = solver.sd.map.spec_grid();
                        let kept = keep_reachable(g, player, boxes);
                        let ib = solver.sd.initial_state.boxes@;
                        crate::state::lemma_multiset_to_set(ib, kept);
                        lemma_keep_reachable(g, player, boxes);
                        let dropped = boxes.to_set().filter(|p: Pos| !live_cell(g, player, p));
                        assert(ib.to_set().union(dropped) =~= boxes.to_set()) by {
                            assert forall|p: Pos| boxes.to_set().contains(p) implies #[trigger] ib.to_set().union(dropped).contains(p) by {
                                if live_cell(g, player, p) {
                                    assert(kept.contains(p));
                                }
                            }
                        }
                        lemma_replay_lift(g, player, pg, None, player, ib.to_set(), dropped, m@);
                        let (_, b) = replay(pg, None, player, ib.to_set(), m@).unwrap();
                        lemma_placed_after(&solver.sd, m@);
                        assert forall|p: Pos| b.union(dropped).contains(p) implies g.at(p) == MapCell::Goal by {
                            if b.contains(p) {
                                assert(pg.at(p) == MapCell::Goal);
                                assert(pg.in_bounds(p) || true);
                            } else {
                                assert(dropped.contains(p));
                                assert(!live_cell(g, player, p));
                                assert(boxes.contains(p));
                                let i = choose|i: int| 0 <= i < boxes.len() && boxes[i] == p;
                                assert(goals_map.goals@.contains(boxes[i]));
                                let k = choose|k: int| 0 <= k < goals_map.goals@.len() && goals_map.goals@[k] == p;
                            }
                        }
                    }
                }
                Ok(r)
            },
            MapType::Remover(remover_map) => {
                let solver = Solver::new_with_remover(remover_map, &self.state)?;
                proof {
                    let g = remover_map.grid@;
                    let pg = solver.sd.map.spec_grid();
                    let ib = solver.sd.initial_state.boxes@;
                    assert forall|i: int| 0 <= i < ib.len() implies crate::solver::explored::has_free_side(pg, #[trigger] ib[i]) by {
                        assert(boxes[i] == ib[i]);
                        assert(boxes.contains(ib[i]));
                        assert(live_cell(g, player, boxes[i]));
                        lemma_free_side(g, player, pg, ib[i]);
                    }
                    assert(boxes_free_sided(&solver.sd));
                    if is_solution(self, Seq::empty()) {
                        assert forall|b: Pos| ib.to_set().contains(b) implies pg.at(b) == MapCell::Goal by {
                            let i = choose|i: int| 0 <= i < ib.len() && ib[i] == b;
                            assert(boxes.to_set().contains(boxes[i]));
                            assert(live_cell(g, player, boxes[i]));
                        }
                        crate::solver::explored::lemma_solved_start_live(&solver.sd);
                    }
                }
                let r = solver.search(method, print_status);
                proof {
                    if r.moves is None && level_recognized(self, method) {
                        let g = remover_map.grid@;
                        let pg = solver.sd.map.spec_grid();
                        let rem = Some(remover_map.remover);
                        let dropped = Set::<Pos>::empty();
                        assert(boxes.to_set().difference(dropped) =~= boxes.to_set());
                        assert forall|m: Seq<crate::moves::Move>| !#[trigger] is_solution(self, m) by {
                            if is_solution(self, m) {
                                assert forall|p: Pos| #[trigger] boxes.to_set().contains(p) && !dropped.contains(p) implies live_cell(g, player, p) by {
                                    let i = choose|i: int| 0 <= i < boxes.len() && boxes[i] == p;
                                    assert(live_cell(g, player, boxes[i]));
                                }
                                lemma_replay_lower(g, player, pg, rem, boxes.to_set(), dropped, m);
                                let (_, b) = replay(g, rem, player, boxes.to_set(), m).unwrap();
                                assert(b.difference(dropped) =~= b);
                                assert(solved(pg, b));
                            }
                        }
                    }
                    if r.moves is Some {
                        let m = r.moves.unwrap();
                        let g = remover_map.grid@;
                        let pg = solver.sd.map.spec_grid();
                        let dropped = Set::<Pos>::empty();
                        assert(boxes.to_set().union(dropped) =~= boxes.to_set());
                        lemma_replay_lift(g, player, pg, Some(remover_map.remover), player, boxes.to_set(), dropped, m@);
                        let (_, b) = replay(pg, Some(remover_map.remover), player, boxes.to_set(), m@).unwrap();
                        lemma_placed_after(&solver.sd, m@);
                        assert(b.union(dropped) =~= b);
                        assert forall|p: Pos| b.contains(p) implies g.at(p) == MapCell::Goal by {
                            assert(pg.at(p) == MapCell::Goal);
                        }
                    }
                }
                Ok(r)
            },
        }
    }
}

} // verus!
