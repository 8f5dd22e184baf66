//! The static part of a level: the grid and either goals or a remover.
use vstd::prelude::*;

use crate::config::Format;
use crate::data::{MapCell, Pos};
use crate::map_formatter::{can_render, render, MapFormatter};
use crate::state::{State, copy_positions};
use crate::vec2d::{Grid, Vec2d};

verus! {

/// A map where all boxes must be pushed onto goals.
#[derive(Debug)]
pub struct GoalMap {
    pub grid: Vec2d<MapCell>,
    pub goals: Vec<Pos>,
}

impl GoalMap {
    pub fn new(grid: Vec2d<MapCell>, goals: Vec<Pos>) -> (m: Self)
        ensures
            m.grid == grid,
            m.goals == goals,
    {
        GoalMap { grid, goals }
    }
}

/// A map with one remover cell which takes away every box pushed onto it.
#[derive(Debug)]
pub struct RemoverMap {
    pub grid: Vec2d<MapCell>,
    pub remover: Pos,
}

impl RemoverMap {
    pub fn new(grid: Vec2d<MapCell>, remover: Pos) -> (m: Self)
        ensures
            m.grid == grid,
            m.remover == remover,
    {
        Self { grid, remover }
    }
}

/// Either kind of map.
#[derive(Debug)]
pub enum MapType {
    Goals(GoalMap),
    Remover(RemoverMap),
}

impl MapType {
    pub open spec fn spec_grid(&self) -> Grid<MapCell> {
        match self {
            MapType::Goals(m) => m.grid@,
            MapType::Remover(m) => m.grid@,
        }
    }

    pub open spec fn spec_remover(&self) -> Option<Pos> {
        match self {
            MapType::Goals(_) => None,
            MapType::Remover(m) => Some(m.remover),
        }
    }

    pub open spec fn spec_goals(&self) -> Seq<Pos> {
        match self {
            MapType::Goals(m) => m.goals@,
            MapType::Remover(_) => Seq::empty(),
        }
    }

    pub fn grid(&self) -> (g: &Vec2d<MapCell>)
        ensures
            g@ == self.spec_grid(),
    {
        match self {
            MapType::Goals(m) => &m.grid,
            MapType::Remover(m) => &m.grid,
        }
    }

    /// The remover, if this is a remover map.
    pub fn remover(&self) -> (r: Option<Pos>)
        ensures
            r == self.spec_remover(),
    {
        match self {
            MapType::Goals(_) => None,
            MapType::Remover(m) => Some(m.remover),
        }
    }

    /// A copy of the map.
    pub fn copy(&self) -> (m: MapType)
        ensures
            m.spec_grid() == self.spec_grid(),
            m.spec_remover() == self.spec_remover(),
            m.spec_goals() == self.spec_goals(),
    {
        match self {
            MapType::Goals(gm) => MapType::Goals(
                GoalMap { grid: gm.grid.copy(), goals: copy_positions(&gm.goals) },
            ),
            MapType::Remover(rm) => MapType::Remover(
                RemoverMap { grid: rm.grid.copy(), remover: rm.remover },
            ),
        }
    }

    /// Prints the map in the XSB format.
    pub fn xsb(&self) -> (mf: MapFormatter<'_>)
        ensures
            mf.grid@ == self.spec_grid(),
            mf.state is None,
            mf.format == Format::Xsb,
    {
        self.format(Format::Xsb)
    }

    /// Prints the map in the custom format.
    pub fn custom(&self) -> (mf: MapFormatter<'_>)
        ensures
            mf.grid@ == self.spec_grid(),
            mf.state is None,
            mf.format == Format::Custom,
    {
        self.format(Format::Custom)
    }

    /// Prints the map in `format`.
    pub fn format(&self, format: Format) -> (mf: MapFormatter<'_>)
        ensures
            mf.grid@ == self.spec_grid(),
            mf.state is None,
            mf.format == format,
    {
        MapFormatter::new(self.grid(), None, format)
    }

    /// Prints the map with `state` in the XSB format.
    pub fn xsb_with_state<'a>(&'a self, state: &'a State) -> (mf: MapFormatter<'a>)
        ensures
            mf.grid@ == self.spec_grid(),
            mf.state == Some(state),
            mf.format == Format::Xsb,
    {
        self.format_with_state(Format::Xsb, state)
    }

    /// Prints the map with `state` in the custom format.
    pub fn custom_with_state<'a>(&'a self, state: &'a State) -> (mf: MapFormatter<'a>)
        ensures
            mf.grid@ == self.spec_grid(),
            mf.state == Some(state),
            mf.format == Format::Custom,
    {
        self.format_with_state(Format::Custom, state)
    }

    /// Prints the map with `state` in `format`.
    pub fn format_with_state<'a>(&'a self, format: Format, state: &'a State) -> (mf: MapFormatter<
        'a,
    >)
        ensures
            mf.grid@ == self.spec_grid(),
            mf.state == Some(state),
            mf.format == format,
    {
        MapFormatter::new(self.grid(), Some(state), format)
    }

    /// The map printed in the XSB format.
    pub fn to_string(&self) -> (s: String)
        requires
            can_render(self.spec_grid(), None, Format::Xsb),
        ensures
            s@ == render(self.spec_grid(), None, Format::Xsb),
    {
        self.xsb().to_string()
    }
}

} // verus!
