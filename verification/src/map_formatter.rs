//! Printing a map, optionally with a state, in one of the level formats.
use vstd::prelude::*;

use crate::config::Format;
use crate::data::{Contents, MapCell, Pos};
use crate::state::State;
use crate::text::push_char;
use crate::vec2d::{Grid, Vec2d};

verus! {

/// What stands on `p` in the state `st` (the player hides a box on the same cell).
pub open spec fn contents_at(st: Option<(Pos, Set<Pos>)>, p: Pos) -> Contents {
    match st {
        None => Contents::Empty,
        Some((player, boxes)) => if p == player {
            Contents::Player
        } else if boxes.contains(p) {
            Contents::Box
        } else {
            Contents::Empty
        },
    }
}

/// The cell at `p` prints as something other than a space.
pub open spec fn non_empty(grid: Grid<MapCell>, st: Option<(Pos, Set<Pos>)>, p: Pos) -> bool {
    grid.at(p) != MapCell::Empty || contents_at(st, p) != Contents::Empty
}

/// Among the first `k` cells of row `r`, the column of the last non-empty one (0 if none).
pub open spec fn last_non_empty(
    grid: Grid<MapCell>,
    st: Option<(Pos, Set<Pos>)>,
    r: u8,
    k: int,
) -> int
    decreases k,
{
    if k <= 0 {
        0
    } else if non_empty(grid, st, Pos { r, c: (k - 1) as u8 }) {
        k - 1
    } else {
        last_non_empty(grid, st, r, k - 1)
    }
}

/// The text of one cell.
pub open spec fn cell_text(format: Format, cell: MapCell, contents: Contents) -> Seq<char> {
    match format {
        Format::Custom => if cell == MapCell::Wall {
            seq!['<', '>']
        } else {
            seq![
                match contents {
                    Contents::Empty => ' ',
                    Contents::Box => 'B',
                    Contents::Player => 'P',
                },
                match cell {
                    MapCell::Goal => '_',
                    MapCell::Remover => 'R',
                    _ => ' ',
                },
            ]
        },
        Format::Xsb => seq![
            match (cell, contents) {
                (MapCell::Empty, Contents::Empty) => ' ',
                (MapCell::Empty, Contents::Box) => '$',
                (MapCell::Empty, Contents::Player) => '@',
                (MapCell::Goal, Contents::Empty) => '.',
                (MapCell::Goal, Contents::Box) => '*',
                (MapCell::Goal, Contents::Player) => '+',
                (MapCell::Remover, Contents::Empty) => 'r',
                (MapCell::Remover, Contents::Player) => 'R',
                _ => '#',
            },
        ],
    }
}

/// Whether a cell can be printed: in the XSB format there are no symbols for a wall with
/// something on it or for a box on the remover.
pub open spec fn printable(format: Format, cell: MapCell, contents: Contents) -> bool {
    format == Format::Xsb ==> (cell == MapCell::Wall ==> contents == Contents::Empty) && (cell
        == MapCell::Remover ==> contents != Contents::Box)
}

/// The text of the first `n` cells of row `r`.
pub open spec fn row_prefix_text(
    grid: Grid<MapCell>,
    st: Option<(Pos, Set<Pos>)>,
    format: Format,
    r: u8,
    n: int,
) -> Seq<char>
    decreases n,
{
    if n <= 0 {
        Seq::empty()
    } else {
        let p = Pos { r, c: (n - 1) as u8 };
        row_prefix_text(grid, st, format, r, n - 1) + cell_text(format, grid.at(p), contents_at(st, p))
    }
}

/// The text of row `r`: its cells up to the last non-empty one (trailing empty cells are
/// not printed) and a line break.
pub open spec fn row_text(
    grid: Grid<MapCell>,
    st: Option<(Pos, Set<Pos>)>,
    format: Format,
    r: u8,
) -> Seq<char> {
    row_prefix_text(grid, st, format, r, last_non_empty(grid, st, r, grid.cols as int) + 1).push(
        '\n',
    )
}

/// The text of the first `n` rows.
pub open spec fn rows_text(
    grid: Grid<MapCell>,
    st: Option<(Pos, Set<Pos>)>,
    format: Format,
    n: int,
) -> Seq<char>
    decreases n,
{
    if n <= 0 {
        Seq::empty()
    } else {
        rows_text(grid, st, format, n - 1) + row_text(grid, st, format, (n - 1) as u8)
    }
}

/// The printed map.
pub open spec fn render(grid: Grid<MapCell>, st: Option<(Pos, Set<Pos>)>, format: Format) -> Seq<
    char,
> {
    rows_text(grid, st, format, grid.rows as int)
}

/// The grid and the state can be printed in the format: all positions of the state are
/// on the grid, the grid is not degenerate and every cell can be printed.
pub open spec fn can_render(grid: Grid<MapCell>, st: Option<(Pos, Set<Pos>)>, format: Format) -> bool {
    &&& grid.wf()
    &&& (grid.rows == 0 || grid.cols > 0)
    &&& match st {
        None => true,
        Some((player, boxes)) => grid.in_bounds(player) && forall|b: Pos|
            #[trigger] boxes.contains(b) ==> grid.in_bounds(b),
    }
    &&& forall|p: Pos| grid.in_bounds(p) ==> printable(format, grid.at(p), #[trigger] contents_at(st, p))
}

/// Prints a map and optionally a state on it.
pub struct MapFormatter<'a> {
    pub grid: &'a Vec2d<MapCell>,
    pub state: Option<&'a State>,
    pub format: Format,
}

impl<'a> MapFormatter<'a> {
    pub fn new(grid: &'a Vec2d<MapCell>, state: Option<&'a State>, format: Format) -> (mf: Self)
        ensures
            mf.grid == grid,
            mf.state == state,
            mf.format == format,
    {
        Self { grid, state, format }
    }

    pub open spec fn state_view(&self) -> Option<(Pos, Set<Pos>)> {
        match self.state {
            Some(s) => Some((s.player_pos, s.boxes@.to_set())),
            None => None,
        }
    }

    /// The map can be printed.
    pub open spec fn can_print(&self) -> bool {
        can_render(self.grid@, self.state_view(), self.format)
    }

    /// The printed map: one line per row, trailing empty cells left out.
    pub fn to_string(&self) -> (s: String)
        requires
            self.can_print(),
        ensures
            s@ == render(self.grid@, self.state_view(), self.format),
    {
        let grid = self.grid;
        let ghost st = self.state_view();
        let mut state_grid: Vec2d<Contents> = grid.scratchpad_with_default(Contents::Empty);
        if let Some(state) = self.state {
            let mut i: usize = 0;
            while i < state.boxes.len()
                invariant
                    st == Some((state.player_pos, state.boxes@.to_set())),
                    i <= state.boxes@.len(),
                    state_grid.wf(),
                    state_grid.same_dims(grid),
                    grid.wf(),
                    forall|b: Pos|
                        #[trigger] state.boxes@.to_set().contains(b) ==> grid.in_bounds(b),
                    forall|p: Pos|
                        grid.in_bounds(p) ==> #[trigger] state_grid.at(p) == (if state.boxes@.subrange(
                            0,
                            i as int,
                        ).contains(p) {
                            Contents::Box
                        } else {
                            Contents::Empty
                        }),
                decreases state.boxes@.len() - i,
            {
                let b = state.boxes[i];
                proof {
                    assert(state.boxes@.contains(b));
                    assert(state.boxes@.to_set().contains(b));
                }
                state_grid.set(b, Contents::Box);
                proof {
                    assert forall|p: Pos| grid.in_bounds(p) implies #[trigger] state_grid.at(p) == (
                    if state.boxes@.subrange(0, i as int + 1).contains(p) {
                        Contents::Box
                    } else {
                        Contents::Empty
                    }) by {
                        let s1 = state.boxes@.subrange(0, i as int + 1);
                        let s0 = state.boxes@.subrange(0, i as int);
                        assert(s1 =~= s0.push(b));
                        assert(s1[i as int] == b);
                        if s1.contains(p) && p != b {
                            let k = choose|k: int| 0 <= k < s1.len() && s1[k] == p;
                            assert(s0[k] == p);
                        }
                        if s0.contains(p) {
                            let k = choose|k: int| 0 <= k < s0.len() && s0[k] == p;
                            assert(s1[k] == p);
                        }
                    }
                }
                i = i + 1;
            }
            state_grid.set(state.player_pos, Contents::Player);
            proof {
                assert(state.boxes@.subrange(0, i as int) =~= state.boxes@);
            }
        }
        proof {
            assert forall|p: Pos| grid.in_bounds(p) implies #[trigger] state_grid.at(p)
                == contents_at(st, p) by {
                if let Some(state) = self.state {
                    if state.boxes@.contains(p) {
                        assert(state.boxes@.to_set().contains(p));
                    }
                    if state.boxes@.to_set().contains(p) {
                        assert(state.boxes@.contains(p));
                    }
                }
            }
        }
        let mut out = String::new();
        let mut r: u8 = 0;
        while r < grid.rows()
            invariant
                grid.wf(),
                state_grid.wf(),
                state_grid.same_dims(grid),
                self.can_print(),
                st == self.state_view(),
                grid == self.grid,
                r <= grid.rows,
                forall|p: Pos| grid.in_bounds(p) ==> #[trigger] state_grid.at(p) == contents_at(st, p),
                out@ == rows_text(grid@, st, self.format, r as int),
            decreases grid.rows - r,
        {
            // don't print trailing empty cells to match the input level strings
            let mut last_non_empty: u8 = 0;
            let mut c: u8 = 0;
            while c < grid.cols()
                invariant
                    grid.wf(),
                    state_grid.wf(),
                    state_grid.same_dims(grid),
                    r < grid.rows,
                    c <= grid.cols,
                    forall|p: Pos|
                        grid.in_bounds(p) ==> #[trigger] state_grid.at(p) == contents_at(st, p),
                    last_non_empty as int == crate::map_formatter::last_non_empty(
                        grid@,
                        st,
                        r,
                        c as int,
                    ),
                    last_non_empty < grid.cols || grid.cols == 0,
                    c == 0 ==> last_non_empty == 0,
                    c > 0 ==> last_non_empty < c,
                decreases grid.cols - c,
            {
                let pos = Pos::new(r, c);
                if *grid.get(pos) != MapCell::Empty || *state_grid.get(pos) != Contents::Empty {
                    last_non_empty = c;
                }
                c = c + 1;
            }
            let end: u16 = last_non_empty as u16 + 1;
            let mut c: u16 = 0;
            let ghost start = out@;
            while c < end
                invariant
                    grid.wf(),
                    state_grid.wf(),
                    state_grid.same_dims(grid),
                    self.can_print(),
                    st == self.state_view(),
                    grid == self.grid,
                    r < grid.rows,
                    grid.cols > 0,
                    last_non_empty < grid.cols,
                    end == last_non_empty + 1,
                    c <= end,
                    forall|p: Pos|
                        grid.in_bounds(p) ==> #[trigger] state_grid.at(p) == contents_at(st, p),
                    out@ == start + row_prefix_text(grid@, st, self.format, r, c as int),
                decreases end - c,
            {
                let pos = Pos::new(r, c as u8);
                let cell = *grid.get(pos);
                let contents = *state_grid.get(pos);
                proof {
                    assert(printable(self.format, grid.at(pos), contents_at(st, pos)));
                }
                match self.format {
                    Format::Custom => Self::write_cell_custom(cell, contents, &mut out),
                    Format::Xsb => Self::write_cell_xsb(cell, contents, &mut out),
                }
                proof {
                    assert(row_prefix_text(grid@, st, self.format, r, c as int + 1) =~= row_prefix_text(
                        grid@,
                        st,
                        self.format,
                        r,
                        c as int,
                    ) + cell_text(self.format, cell, contents));
                }
                c = c + 1;
            }
            push_char(&mut out, '\n');
            proof {
                assert(out@ =~= rows_text(grid@, st, self.format, r as int + 1));
            }
            r = r + 1;
        }
        out
    }

    /// Appends the custom-format text of one cell (two characters).
    fn write_cell_custom(cell: MapCell, contents: Contents, out: &mut String)
        ensures
            final(out)@ == old(out)@ + cell_text(Format::Custom, cell, contents),
    {
        if cell == MapCell::Wall {
            push_char(out, '<');
            push_char(out, '>');
        } else {
            match contents {
                Contents::Empty => push_char(out, ' '),
                Contents::Box => push_char(out, 'B'),
                Contents::Player => push_char(out, 'P'),
            };
            match cell {
                MapCell::Empty => push_char(out, ' '),
                MapCell::Goal => push_char(out, '_'),
                MapCell::Remover => push_char(out, 'R'),
                MapCell::Wall => push_char(out, ' '),
            };
        }
        proof {
            assert(final(out)@ =~= old(out)@ + cell_text(Format::Custom, cell, contents));
        }
    }

    /// Appends the XSB text of one cell.
    fn write_cell_xsb(cell: MapCell, contents: Contents, out: &mut String)
        requires
            printable(Format::Xsb, cell, contents),
        ensures
            final(out)@ == old(out)@ + cell_text(Format::Xsb, cell, contents),
    {
        let ch = match (cell, contents) {
            (MapCell::Empty, Contents::Empty) => ' ',
            (MapCell::Empty, Contents::Box) => '$',
            (MapCell::Empty, Contents::Player) => '@',
            (MapCell::Wall, _) => '#',
            (MapCell::Goal, Contents::Empty) => '.',
            (MapCell::Goal, Contents::Box) => '*',
            (MapCell::Goal, Contents::Player) => '+',
            (MapCell::Remover, Contents::Empty) => 'r',
            (MapCell::Remover, Contents::Box) => 'r',
            (MapCell::Remover, Contents::Player) => 'R',
        };
        push_char(out, ch);
        proof {
            assert(final(out)@ =~= old(out)@ + cell_text(Format::Xsb, cell, contents));
        }
    }
}

} // verus!
