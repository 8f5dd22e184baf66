//! A level: a map and the initial state.
use vstd::prelude::*;

use crate::config::Format;
use crate::data::{MapCell, Pos};
use crate::map::{GoalMap, MapType, RemoverMap};
use crate::map_formatter::{render, MapFormatter};
use crate::moves::Moves;
use crate::rules::{replay, solved, state_on_grid, try_apply_move};
use crate::solution_formatter::{
    grid_ok, lemma_placement_renders, placement_ok, solution_text, SolutionFormatter,
};
use crate::state::State;

verus! {

/// A level: the map and where the player and the boxes start.
#[derive(Debug)]
pub struct Level {
    pub map: MapType,
    pub state: State,
}

/// `moves` solve the level: all of them are allowed and afterwards every box is on a goal.
pub open spec fn is_solution(level: &Level, moves: Seq<crate::moves::Move>) -> bool {
    match replay(
        level.map.spec_grid(),
        level.map.spec_remover(),
        level.state.player_pos,
        level.state.boxes@.to_set(),
        moves,
    ) {
        Some((_, boxes)) => solved(level.map.spec_grid(), boxes),
        None => false,
    }
}

/// Every listed goal lies on the grid on a goal cell.
pub open spec fn goals_ok(grid: crate::vec2d::Grid<MapCell>, goals: Seq<Pos>) -> bool {
    forall|i: int| 0 <= i < goals.len() ==> grid.in_bounds(#[trigger] goals[i]) && grid.at(goals[i]) == MapCell::Goal
}

impl Level {
    pub fn new(map: MapType, state: State) -> (l: Self)
        ensures
            l.map == map,
            l.state == state,
    {
        Level { map, state }
    }

    /// The map and the state are consistent: everything stands on the grid, the player
    /// and the boxes not on walls, the player not on a box, no box on the remover, boxes
    /// listed once and sorted, every listed goal a goal cell.
    pub open spec fn wf(&self) -> bool {
        &&& grid_ok(self.map.spec_grid(), self.map.spec_remover())
        &&& placement_ok(
            self.map.spec_grid(),
            self.state.player_pos,
            self.state.boxes@.to_set(),
        )
        &&& state_on_grid(self.map.spec_grid(), self.state)
        &&& crate::state::sorted(self.state.boxes@)
        &&& !self.state.boxes@.contains(self.state.player_pos)
        &&& goals_ok(self.map.spec_grid(), self.map.spec_goals())
    }

    /// The map.
    pub fn map(&self) -> (m: &MapType)
        ensures
            m == &self.map,
    {
        &self.map
    }

    /// The map, when the level has goals.
    pub fn goal_map(&self) -> (m: Option<&GoalMap>)
        ensures
            match m {
                Some(gm) => self.map == MapType::Goals(*gm),
                None => self.map is Remover,
            },
    {
        match &self.map {
            MapType::Goals(m) => Some(m),
            MapType::Remover(_) => None,
        }
    }

    /// The map, when the level has a remover.
    pub fn remover_map(&self) -> (m: Option<&RemoverMap>)
        ensures
            match m {
                Some(rm) => self.map == MapType::Remover(*rm),
                None => self.map is Goals,
            },
    {
        match &self.map {
            MapType::Remover(m) => Some(m),
            MapType::Goals(_) => None,
        }
    }

    /// Prints the level in the XSB format.
    pub fn xsb(&self) -> (mf: MapFormatter<'_>)
        ensures
            mf.grid@ == self.map.spec_grid(),
            mf.state == Some(&self.state),
            mf.format == Format::Xsb,
    {
        self.format(Format::Xsb)
    }

    /// Prints the level in the custom format.
    pub fn custom(&self) -> (mf: MapFormatter<'_>)
        ensures
            mf.grid@ == self.map.spec_grid(),
            mf.state == Some(&self.state),
            mf.format == Format::Custom,
    {
        self.format(Format::Custom)
    }

    /// Prints the level in `format`.
    pub fn format(&self, format: Format) -> (mf: MapFormatter<'_>)
        ensures
            mf.grid@ == self.map.spec_grid(),
            mf.state == Some(&self.state),
            mf.format == format,
    {
        MapFormatter::new(self.map.grid(), Some(&self.state), format)
    }

    /// The level printed in the XSB format.
    pub fn to_string(&self) -> (s: String)
        requires
            self.wf(),
        ensures
            s@ == render(
                self.map.spec_grid(),
                Some((self.state.player_pos, self.state.boxes@.to_set())),
                Format::Xsb,
            ),
    {
        proof {
            lemma_placement_renders(
                self.map.spec_grid(),
                self.map.spec_remover(),
                self.state.player_pos,
                self.state.boxes@.to_set(),
                Format::Xsb,
            );
        }
        self.xsb().to_string()
    }

    /// Prints a solution in the XSB format.
    pub fn xsb_solution<'a>(&'a self, moves: &'a Moves, include_steps: bool) -> (sf:
        SolutionFormatter<'a>)
        ensures
            sf.map == &self.map,
            sf.initial_state == &self.state,
            sf.moves == moves,
            sf.include_steps == include_steps,
            sf.format == Format::Xsb,
    {
        self.format_solution(Format::Xsb, moves, include_steps)
    }

    /// Prints a solution in the custom format.
    pub fn custom_solution<'a>(&'a self, moves: &'a Moves, include_steps: bool) -> (sf:
        SolutionFormatter<'a>)
        ensures
            sf.map == &self.map,
            sf.initial_state == &self.state,
            sf.moves == moves,
            sf.include_steps == include_steps,
            sf.format == Format::Custom,
    {
        self.format_solution(Format::Custom, moves, include_steps)
    }

    /// Prints a solution in `format`.
    pub fn format_solution<'a>(&'a self, format: Format, moves: &'a Moves, include_steps: bool) -> (sf:
        SolutionFormatter<'a>)
        ensures
            sf.map == &self.map,
            sf.initial_state == &self.state,
            sf.moves == moves,
            sf.include_steps == include_steps,
            sf.format == format,
    {
        SolutionFormatter::new(&self.map, &self.state, moves, include_steps, format)
    }

    /// Whether all `moves` are allowed when played from the initial state.
    pub fn can_replay(&self, moves: &Moves) -> (b: bool)
        requires
            self.wf(),
        ensures
            b == (replay(
                self.map.spec_grid(),
                self.map.spec_remover(),
                self.state.player_pos,
                self.state.boxes@.to_set(),
                moves@,
            ) is Some),
    {
        self.replay_to_end(moves).is_some()
    }

    /// The state after all `moves`, if they are all allowed.
    fn replay_to_end(&self, moves: &Moves) -> (r: Option<State>)
        requires
            self.wf(),
        ensures
            match replay(
                self.map.spec_grid(),
                self.map.spec_remover(),
                self.state.player_pos,
                self.state.boxes@.to_set(),
                moves@,
            ) {
                None => r is None,
                Some((p, b)) => r matches Some(s) && s.player_pos == p && s.boxes@.to_set() == b
                    && state_on_grid(self.map.spec_grid(), s),
            },
    {
        let ghost g = self.map.spec_grid();
        let ghost rem = self.map.spec_remover();
        let ghost p0 = self.state.player_pos;
        let ghost b0 = self.state.boxes@.to_set();
        let grid = self.map.grid();
        let remover = self.map.remover();
        assert(grid.wf());
        let mut cur = self.state.clone();
        let mut i: usize = 0;
        while i < moves.move_cnt()
            invariant
                grid@ == g,
                remover == rem,
                self.wf(),
                g == self.map.spec_grid(),
                rem == self.map.spec_remover(),
                p0 == self.state.player_pos,
                b0 == self.state.boxes@.to_set(),
                i <= moves@.len(),
                state_on_grid(g, cur),
                replay(g, rem, p0, b0, moves@.take(i as int)) == Some(
                    (cur.player_pos, cur.boxes@.to_set()),
                ),
            decreases moves@.len() - i,
        {
            let mov = moves.as_slice()[i];
            proof {
                assert(moves@.take(i as int + 1).drop_last() =~= moves@.take(i as int));
            }
            match try_apply_move(grid, remover, &cur, mov) {
                Some(s) => {
                    cur = s;
                },
                None => {
                    proof {
                        crate::solution_formatter::lemma_replay_prefix_none(
                            g,
                            rem,
                            p0,
                            b0,
                            moves@,
                            i as int + 1,
                        );
                    }
                    return None;
                },
            }
            i = i + 1;
        }
        proof {
            assert(moves@.take(i as int) =~= moves@);
        }
        Some(cur)
    }
}

} // verus!
