//! A level as the solver sees it: the processed map, the initial state and the dead ends.
use vstd::prelude::*;

use crate::config::Format;
use crate::data::Pos;
use crate::level::Level;
use crate::map::MapType;
use crate::map_formatter::{render, MapFormatter};
use crate::rules::state_on_grid;
use crate::solution_formatter::{grid_ok, lemma_placement_renders, placement_ok};
use crate::solver::preprocessing::enclosed;
use crate::solver::simple::{earlier_dead, fits, free_cell, hopeless, lone_box_solvable, mark_dead_ends, open_goal};
use crate::solver::{goals_error, keep_reachable, level_error, processed, Solver, SolverErr};
use crate::state::{sorted, State};
use crate::vec2d::Vec2d;

verus! {

/// The processed map, the initial state and the cells from which a lone box cannot reach
/// a target.
#[derive(Debug)]
pub struct SolverLevel {
    pub map: MapType,
    pub state: State,
    pub dead_ends: Vec2d<bool>,
}

impl SolverLevel {
    pub fn new(map: MapType, state: State, dead_ends: Vec2d<bool>) -> (l: Self)
        ensures
            l.map == map,
            l.state == state,
            l.dead_ends == dead_ends,
    {
        Self { map, state, dead_ends }
    }

    /// The map and the state are consistent and the dead ends cover the map.
    pub open spec fn wf(&self) -> bool {
        &&& grid_ok(self.map.spec_grid(), self.map.spec_remover())
        &&& placement_ok(self.map.spec_grid(), self.state.player_pos, self.state.boxes@.to_set())
        &&& state_on_grid(self.map.spec_grid(), self.state)
        &&& sorted(self.state.boxes@)
        &&& !self.state.boxes@.contains(self.state.player_pos)
        &&& fits(&self.map, &self.dead_ends)
    }

    /// Prints the level in the XSB format.
    pub fn xsb(&self) -> (mf: MapFormatter<'_>)
        ensures
            mf.grid@ == self.map.spec_grid(),
            mf.state == Some(&self.state),
            mf.format == Format::Xsb,
    {
        self.format(Format::Xsb)
    }

    /// Prints the level in the custom format.
    pub fn custom(&self) -> (mf: MapFormatter<'_>)
        ensures
            mf.grid@ == self.map.spec_grid(),
            mf.state == Some(&self.state),
            mf.format == Format::Custom,
    {
        self.format(Format::Custom)
    }

    /// Prints the level in `format`.
    pub fn format(&self, format: Format) -> (mf: MapFormatter<'_>)
        ensures
            mf.grid@ == self.map.spec_grid(),
            mf.state == Some(&self.state),
            mf.format == format,
    {
        MapFormatter::new(self.map.grid(), Some(&self.state), format)
    }

    /// The level printed in the XSB format.
    pub fn to_string(&self) -> (s: String)
        requires
            self.wf(),
        ensures
            s@ == render(
                self.map.spec_grid(),
                Some((self.state.player_pos, self.state.boxes@.to_set())),
                Format::Xsb,
            ),
    {
        proof {
            lemma_placement_renders(
                self.map.spec_grid(),
                self.map.spec_remover(),
                self.state.player_pos,
                self.state.boxes@.to_set(),
                Format::Xsb,
            );
        }
        self.xsb().to_string()
    }
}

/// Prepares a level for the search: the map processed as the solver does it, the boxes the
/// player can reach, and the dead ends of the processed map. Fails exactly when the solver
/// refuses the level.
pub fn process_level(level: &Level) -> (r: Result<SolverLevel, SolverErr>)
    requires
        level.wf(),
    ensures
        match r {
            Err(e) => level_error(level) == Some(e),
            Ok(sl) => {
                let g = level.map.spec_grid();
                let player = level.state.player_pos;
                &&& level_error(level) is None
                &&& sl.wf()
                &&& processed(g, player, sl.map.spec_grid())
                &&& sl.map.spec_remover() == level.map.spec_remover()
                &&& sl.map.spec_goals() == keep_reachable(g, player, level.map.spec_goals())
                &&& sl.state.player_pos == player
                &&& (level.map is Goals ==> sl.state.boxes@.to_multiset() == keep_reachable(
                    g,
                    player,
                    level.state.boxes@,
                ).to_multiset())
                &&& (level.map is Remover ==> sl.state@ == level.state@)
                &&& forall|p: Pos|
                    sl.map.spec_grid().in_bounds(p) && #[trigger] sl.dead_ends.at(p) ==> free_cell(
                        sl.map.spec_grid(),
                        p,
                    )
                &&& forall|p: Pos|
                    sl.map.spec_grid().in_bounds(p) && !#[trigger] sl.dead_ends.at(p) && free_cell(
                        sl.map.spec_grid(),
                        p,
                    ) ==> lone_box_solvable(sl.map.spec_grid(), sl.map.spec_remover(), p)
                &&& forall|p: Pos|
                    sl.map.spec_grid().in_bounds(p) && open_goal(sl.map.spec_grid(), p) ==> !#[trigger] sl.dead_ends.at(p)
                &&& forall|p: Pos|
                    sl.map.spec_grid().in_bounds(p) && #[trigger] sl.dead_ends.at(p) ==> hopeless(
                        sl.map.spec_grid(),
                        sl.map.spec_remover(),
                        earlier_dead(sl.map.spec_grid(), sl.dead_ends, p),
                        p,
                    )
                &&& enclosed(sl.map.spec_grid())
            },
        },
{
    let solver = match &level.map {
        MapType::Goals(goals_map) => Solver::new_with_goals(goals_map, &level.state)?,
        MapType::Remover(remover_map) => Solver::new_with_remover(remover_map, &level.state)?,
    };
    let sd = solver.sd;
    let dead_ends = mark_dead_ends(&sd.map);
    let sl = SolverLevel::new(sd.map, sd.initial_state, dead_ends);
    proof {
        let g = sl.map.spec_grid();
        let s = sl.state;
        assert(crate::solver::backtracking::search_state(g, s@));
        crate::state::lemma_sorted_distinct(s.boxes@);
        assert forall|b: Pos| #[trigger] s.boxes@.to_set().contains(b) implies g.in_bounds(b) && g.at(b) != crate::data::MapCell::Wall && g.at(b) != crate::data::MapCell::Remover by {
            let j = choose|j: int| 0 <= j < s.boxes@.len() && s.boxes@[j] == b;
            assert(g.in_bounds(s.boxes@[j]));
        }
        assert(sl.wf());
        if level.map is Remover {
            assert(keep_reachable(level.map.spec_grid(), level.state.player_pos, Seq::<Pos>::empty()) =~= Seq::<Pos>::empty());
        }
    }
    Ok(sl)
}

} // verus!
