//! Reading a level together with the checks the solver needs: the player cannot leave
//! the level, the cells the player cannot reach become walls, and every box and goal that
//! matters can be reached.
use vstd::prelude::*;

use crate::data::{MapCell, Pos};
use crate::grid_text::padded_cell;
use crate::lines::{lines, lines_view, split_lines, trim_newlines, trim_newlines_chars};
use crate::map::{GoalMap, MapType, RemoverMap};
use crate::parser::{max_cells, parsed_cell};
use crate::scan::{
    error_at, first_of, is_cell, lemma_no_error_sizes, lemma_rows_positions, no_error,
    no_error_before, positions_of, scan, CellErr, Feature, Scanned,
};
use crate::solver::preprocessing::check_reachability;
use crate::solver::{keep_reachable, leaks, live_cell, processed};
use crate::state::{contains_pos, distinct, sorted, State};
use crate::text::{chars_of, decimal, decimal_u64, push_char, push_chars};
use crate::vec2d::{Grid, Vec2d};

pub use crate::config::Format;

verus! {

/// Why a level could not be read.
#[derive(Clone, Copy, Debug, PartialEq, Eq, Structural)]
pub enum ParseErr {
    /// A cell (row, column) that is not valid there, or a row beyond the largest level
    /// size (its column is then 0).
    Pos(usize, usize),
    MultiplePlayers,
    MultipleRemovers,
    NoPlayer,
    IncompleteBorder,
    UnreachableBoxes,
    UnreachableGoals,
    UnreachableRemover,
    RemoverAndGoals,
    BoxesGoals,
}

impl ParseErr {
    pub open spec fn spec_message(self) -> Seq<char> {
        match self {
            ParseErr::Pos(r, c) => "Invalid cell at pos: ["@ + decimal(r as int) + ", "@ + decimal(c as int)
                + "]"@,
            ParseErr::MultiplePlayers => "Too many players"@,
            ParseErr::MultipleRemovers => "Multiple removers - only one allowed"@,
            ParseErr::NoPlayer => "No player"@,
            ParseErr::IncompleteBorder => "Player can exit the level because of missing border"@,
            ParseErr::UnreachableBoxes => "Boxes that are not on goal but can't be reached"@,
            ParseErr::UnreachableGoals => "Goals that don't have a box but can't be reached"@,
            ParseErr::UnreachableRemover => "Remover is not reachable"@,
            ParseErr::RemoverAndGoals => "Both remover and goals"@,
            ParseErr::BoxesGoals => "Different number of boxes and goals"@,
        }
    }

    /// The message describing the error.
    pub fn to_string(&self) -> (s: String)
        ensures
            s@ == self.spec_message(),
    {
        let mut s = String::new();
        match self {
            ParseErr::Pos(r, c) => {
                push_chars(&mut s, &chars_of("Invalid cell at pos: ["));
                push_chars(&mut s, &decimal_u64(*r as u64));
                push_chars(&mut s, &chars_of(", "));
                push_chars(&mut s, &decimal_u64(*c as u64));
                push_char(&mut s, ']');
                proof {
                    reveal_strlit("]");
                }
            },
            ParseErr::MultiplePlayers => push_chars(&mut s, &chars_of("Too many players")),
            ParseErr::MultipleRemovers => push_chars(&mut s, &chars_of("Multiple removers - only one allowed")),
            ParseErr::NoPlayer => push_chars(&mut s, &chars_of("No player")),
            ParseErr::IncompleteBorder => push_chars(
                &mut s,
                &chars_of("Player can exit the level because of missing border"),
            ),
            ParseErr::UnreachableBoxes => push_chars(
                &mut s,
                &chars_of("Boxes that are not on goal but can't be reached"),
            ),
            ParseErr::UnreachableGoals => push_chars(
                &mut s,
                &chars_of("Goals that don't have a box but can't be reached"),
            ),
            ParseErr::UnreachableRemover => push_chars(&mut s, &chars_of("Remover is not reachable")),
            ParseErr::RemoverAndGoals => push_chars(&mut s, &chars_of("Both remover and goals")),
            ParseErr::BoxesGoals => push_chars(&mut s, &chars_of("Different number of boxes and goals")),
        }
        proof {
            assert(s@ =~= self.spec_message());
        }
        s
    }
}

/// The grid of the level described by the lines `ls`, short lines filled up with empty cells.
pub open spec fn cells_grid(fmt: Format, ls: Seq<Seq<char>>) -> Grid<MapCell> {
    let rows = ls.len() as int;
    let cols = max_cells(fmt, ls);
    Grid {
        cells: Seq::new(
            (rows * cols) as nat,
            |i: int| parsed_cell(fmt, ls, Pos { r: (i / cols) as u8, c: (i % cols) as u8 }),
        ),
        rows: rows as u8,
        cols: cols as u8,
    }
}

/// The first wrong cell in reading order (meaningful when there is one).
pub open spec fn first_wrong(fmt: Format, ls: Seq<Seq<char>>) -> (int, int) {
    choose|rk: (int, int)|
        is_cell(fmt, ls, rk.0, rk.1) && error_at(fmt, false, ls, rk.0, rk.1) is Some
            && no_error_before(fmt, false, ls, rk.0, rk.1)
}

/// Why the boxes, goals and remover of a level whose border is closed keep it from being
/// solved, if they do.
pub open spec fn items_error(
    g: Grid<MapCell>,
    player: Pos,
    boxes: Seq<Pos>,
    goals: Seq<Pos>,
    remover: Option<Pos>,
) -> Option<ParseErr> {
    if remover matches Some(r) && !live_cell(g, player, r) {
        Some(ParseErr::UnreachableRemover)
    } else if exists|i: int| 0 <= i < boxes.len() && !live_cell(g, player, #[trigger] boxes[i]) && !goals.contains(boxes[i]) {
        Some(ParseErr::UnreachableBoxes)
    } else if exists|i: int| 0 <= i < goals.len() && !live_cell(g, player, #[trigger] goals[i]) && !boxes.contains(goals[i]) {
        Some(ParseErr::UnreachableGoals)
    } else if remover is Some && goals.len() > 0 {
        Some(ParseErr::RemoverAndGoals)
    } else if remover is None && keep_reachable(g, player, boxes).len() != keep_reachable(g, player, goals).len() {
        Some(ParseErr::BoxesGoals)
    } else {
        None
    }
}

/// Why the lines `ls` do not describe a level the solver can work with, if they do not.
pub open spec fn format_error(fmt: Format, ls: Seq<Seq<char>>) -> Option<ParseErr> {
    if !no_error(fmt, false, ls) {
        let rk = first_wrong(fmt, ls);
        Some(
            match error_at(fmt, false, ls, rk.0, rk.1).unwrap() {
                CellErr::MultiplePlayers => ParseErr::MultiplePlayers,
                CellErr::MultipleRemovers => ParseErr::MultipleRemovers,
                _ => ParseErr::Pos(rk.0 as usize, rk.1 as usize),
            },
        )
    } else if ls.len() > 255 {
        Some(ParseErr::Pos(255, 0))
    } else if positions_of(fmt, ls, Feature::Player).len() == 0 {
        Some(ParseErr::NoPlayer)
    } else {
        let g = cells_grid(fmt, ls);
        let player = positions_of(fmt, ls, Feature::Player)[0];
        if leaks(g, player) {
            Some(ParseErr::IncompleteBorder)
        } else {
            items_error(
                g,
                player,
                positions_of(fmt, ls, Feature::Box),
                positions_of(fmt, ls, Feature::Goal),
                first_of(positions_of(fmt, ls, Feature::Remover)),
            )
        }
    }
}

proof fn lemma_first_wrong_unique(fmt: Format, ls: Seq<Seq<char>>, r: int, k: int)
    requires
        is_cell(fmt, ls, r, k),
        error_at(fmt, false, ls, r, k) is Some,
        no_error_before(fmt, false, ls, r, k),
    ensures
        first_wrong(fmt, ls) == (r, k),
{
    let w = (r, k);
    assert(is_cell(fmt, ls, w.0, w.1) && error_at(fmt, false, ls, w.0, w.1) is Some && no_error_before(
        fmt,
        false,
        ls,
        w.0,
        w.1,
    ));
    let rk = first_wrong(fmt, ls);
    if rk.0 < r || (rk.0 == r && rk.1 < k) {
        assert(error_at(fmt, false, ls, rk.0, rk.1) is None);
    } else if r < rk.0 || (r == rk.0 && k < rk.1) {
        assert(error_at(fmt, false, ls, r, k) is None);
    }
}

/// The grid built from the rows is the grid of the parsed cells.
proof fn lemma_cells_grid(fmt: Format, ls: Seq<Seq<char>>, g: Grid<MapCell>)
    requires
        g.wf(),
        g.rows == ls.len(),
        g.cols == max_cells(fmt, ls),
        ls.len() <= 255,
        max_cells(fmt, ls) <= 255,
        forall|p: Pos| g.in_bounds(p) ==> #[trigger] g.at(p) == parsed_cell(fmt, ls, p),
    ensures
        g == cells_grid(fmt, ls),
{
    let cg = cells_grid(fmt, ls);
    let cols = g.cols as int;
    assert(cg.cells.len() == g.cells.len());
    assert forall|i: int| 0 <= i < g.cells.len() implies #[trigger] g.cells[i] == cg.cells[i] by {
        if cols == 0 {
            assert(g.cells.len() == 0) by (nonlinear_arith)
                requires
                    g.cells.len() == g.rows as int * cols,
                    cols == 0,
            ;
        }
        let r = i / cols;
        let c = i % cols;
        vstd::arithmetic::div_mod::lemma_fundamental_div_mod(i, cols);
        assert(0 <= c < cols);
        assert(0 <= r < g.rows) by (nonlinear_arith)
            requires
                i == cols * r + c,
                0 <= c < cols,
                0 <= i < g.rows * cols,
                cols > 0,
        ;
        let p = Pos { r: r as u8, c: c as u8 };
        assert(p.r as int == r && p.c as int == c);
        assert(g.in_bounds(p));
        assert(g.at(p) == parsed_cell(fmt, ls, p));
        assert(g.idx(p) == i) by (nonlinear_arith)
            requires
                g.idx(p) == p.r as int * cols + p.c as int,
                p.r == r,
                p.c == c,
                i == cols * r + c,
        ;
        assert(cg.cells[i] == parsed_cell(fmt, ls, p));
    }
    assert(g.cells =~= cg.cells);
}

/// Reads the cells of a level and what stands on them, and checks that it has one player
/// and fits the largest level size.
fn read_cells(level: &str, format: Format) -> (res: Result<(Vec2d<MapCell>, Scanned, Pos), ParseErr>)
    ensures
        ({
            let ls = lines(trim_newlines(level@));
            match res {
                Err(e) => format_error(format, ls) == Some(e),
                Ok((grid, s, player)) => {
                    &&& no_error(format, false, ls)
                    &&& ls.len() <= 255
                    &&& positions_of(format, ls, Feature::Player).len() > 0
                    &&& player == positions_of(format, ls, Feature::Player)[0]
                    &&& grid@ == cells_grid(format, ls)
                    &&& grid.wf()
                    &&& grid.in_bounds(player)
                    &&& s.boxes@ == positions_of(format, ls, Feature::Box)
                    &&& s.goals@ == positions_of(format, ls, Feature::Goal)
                    &&& s.remover == first_of(positions_of(format, ls, Feature::Remover))
                    &&& forall|j: int| 0 <= j < s.boxes@.len() ==> grid.in_bounds(#[trigger] s.boxes@[j])
                    &&& forall|j: int| 0 <= j < s.goals@.len() ==> grid.in_bounds(#[trigger] s.goals@[j])
                    &&& (s.remover matches Some(r) ==> grid.in_bounds(r))
                    &&& distinct(s.boxes@)
                },
            }
        }),
{
    let chars = chars_of(level);
    let trimmed = trim_newlines_chars(&chars);
    let ls = split_lines(&trimmed);
    let ghost lsv = lines_view(ls@);
    assert(lsv == lines(trim_newlines(level@)));
    let scanned = match scan(format, false, &ls) {
        Err((e, r, k)) => {
            proof {
                lemma_first_wrong_unique(format, lsv, r as int, k as int);
            }
            return Err(
                match e {
                    CellErr::MultiplePlayers => ParseErr::MultiplePlayers,
                    CellErr::MultipleRemovers => ParseErr::MultipleRemovers,
                    _ => ParseErr::Pos(r, k),
                },
            );
        },
        Ok(s) => s,
    };
    if ls.len() > 255 {
        return Err(ParseErr::Pos(255, 0));
    }
    let player_pos = match scanned.player_pos {
        None => return Err(ParseErr::NoPlayer),
        Some(p) => p,
    };
    proof {
        lemma_no_error_sizes(format, false, lsv);
        crate::parser::lemma_max_cells(format, lsv, scanned.rows@);
        lemma_rows_positions(format, lsv, lsv.len() as int, Feature::Player);
        lemma_rows_positions(format, lsv, lsv.len() as int, Feature::Box);
        lemma_rows_positions(format, lsv, lsv.len() as int, Feature::Goal);
        lemma_rows_positions(format, lsv, lsv.len() as int, Feature::Remover);
    }
    let grid = Vec2d::from_rows(scanned.rows.as_slice(), MapCell::Empty);
    proof {
        let g = grid@;
        assert forall|p: Pos| g.in_bounds(p) implies #[trigger] g.at(p) == parsed_cell(format, lsv, p) by {
            assert(grid.at(p) == padded_cell(scanned.rows@, MapCell::Empty, p));
        }
        lemma_cells_grid(format, lsv, g);
        let pl = positions_of(format, lsv, Feature::Player)[0];
        assert(pl == player_pos);
        assert(g.in_bounds(pl));
        let bs = scanned.boxes@;
        assert(distinct(bs)) by {
            assert forall|i: int, j: int| 0 <= i < j < bs.len() implies bs[i] != bs[j] by {
                assert(bs[i].spec_lt(bs[j]));
            }
        }
        if let Some(rem) = scanned.remover {
            assert(positions_of(format, lsv, Feature::Remover)[0] == rem);
        }
    }
    Ok((grid, scanned, player_pos))
}

/// The items of `items` that the player can reach, or `None` when one of them can be
/// reached neither by the player nor stands on a cell of `others`.
fn live_items(
    pg: &Vec2d<MapCell>,
    Ghost(g): Ghost<Grid<MapCell>>,
    player: Pos,
    items: &Vec<Pos>,
    others: &Vec<Pos>,
) -> (res: Option<Vec<Pos>>)
    requires
        processed(g, player, pg@),
        forall|j: int| 0 <= j < items@.len() ==> g.in_bounds(#[trigger] items@[j]),
    ensures
        match res {
            None => exists|i: int|
                0 <= i < items@.len() && !live_cell(g, player, #[trigger] items@[i]) && !others@.contains(items@[i]),
            Some(v) => {
                &&& v@ == keep_reachable(g, player, items@)
                &&& forall|i: int|
                    0 <= i < items@.len() ==> live_cell(g, player, #[trigger] items@[i]) || others@.contains(items@[i])
            },
        },
{
    let ghost s = items@;
    let mut kept: Vec<Pos> = Vec::new();
    let mut i: usize = 0;
    while i < items.len()
        invariant
            processed(g, player, pg@),
            s == items@,
            forall|j: int| 0 <= j < s.len() ==> g.in_bounds(#[trigger] s[j]),
            i <= s.len(),
            kept@ == keep_reachable(g, player, s.take(i as int)),
            forall|j: int| 0 <= j < i ==> live_cell(g, player, #[trigger] s[j]) || others@.contains(s[j]),
        decreases s.len() - i,
    {
        let pos = items[i];
        proof {
            assert(s.take(i as int + 1).drop_last() =~= s.take(i as int));
            assert(pg@.in_bounds(pos));
            assert(pg@.at(pos) == pg.at(pos));
        }
        if *pg.get(pos) != MapCell::Wall {
            kept.push(pos);
        } else if !contains_pos(others, pos) {
            proof {
                assert(!live_cell(g, player, s[i as int]) && !others@.contains(s[i as int]));
            }
            return None;
        }
        i = i + 1;
    }
    proof {
        assert(s.take(s.len() as int) =~= s);
    }
    Some(kept)
}

/// The map of a level whose border is closed, and the boxes the player can reach, or why
/// its boxes, goals and remover keep it from being solved.
fn check_items(
    pg: Vec2d<MapCell>,
    Ghost(g): Ghost<Grid<MapCell>>,
    player: Pos,
    boxes: &Vec<Pos>,
    goals: &Vec<Pos>,
    remover: Option<Pos>,
) -> (res: Result<(MapType, Vec<Pos>), ParseErr>)
    requires
        processed(g, player, pg@),
        forall|j: int| 0 <= j < boxes@.len() ==> g.in_bounds(#[trigger] boxes@[j]),
        forall|j: int| 0 <= j < goals@.len() ==> g.in_bounds(#[trigger] goals@[j]),
        remover matches Some(r) ==> g.in_bounds(r),
    ensures
        match res {
            Err(e) => items_error(g, player, boxes@, goals@, remover) == Some(e),
            Ok((map, kept)) => {
                &&& items_error(g, player, boxes@, goals@, remover) is None
                &&& map.spec_grid() == pg@
                &&& map.spec_remover() == remover
                &&& (remover is None ==> map.spec_goals() == keep_reachable(g, player, goals@))
                &&& kept@ == keep_reachable(g, player, boxes@)
            },
        },
{
    if let Some(rem) = remover {
        assert(pg@.at(rem) == pg.at(rem));
        if *pg.get(rem) == MapCell::Wall {
            return Err(ParseErr::UnreachableRemover);
        }
    }
    let kept_boxes = match live_items(&pg, Ghost(g), player, boxes, goals) {
        None => return Err(ParseErr::UnreachableBoxes),
        Some(v) => v,
    };
    let kept_goals = match live_items(&pg, Ghost(g), player, goals, boxes) {
        None => return Err(ParseErr::UnreachableGoals),
        Some(v) => v,
    };
    let map = match remover {
        Some(rem) => {
            if goals.len() > 0 {
                return Err(ParseErr::RemoverAndGoals);
            }
            MapType::Remover(RemoverMap::new(pg, rem))
        },
        None => {
            if kept_boxes.len() != kept_goals.len() {
                return Err(ParseErr::BoxesGoals);
            }
            MapType::Goals(GoalMap::new(pg, kept_goals))
        },
    };
    Ok((map, kept_boxes))
}

/// Reads a level in `format` (line breaks around it are ignored) and prepares it for the
/// solver: the player must not be able to leave the level, cells the player cannot reach
/// become walls, and boxes and goals the player cannot reach are dropped when they are
/// paired (a box on a goal).
pub fn parse(level: &str, format: Format) -> (res: Result<(MapType, State), ParseErr>)
    ensures
        ({
            let ls = lines(trim_newlines(level@));
            match res {
                Err(e) => format_error(format, ls) == Some(e),
                Ok((map, state)) => {
                    let g = cells_grid(format, ls);
                    let player = positions_of(format, ls, Feature::Player)[0];
                    let remover = first_of(positions_of(format, ls, Feature::Remover));
                    &&& format_error(format, ls) is None
                    &&& processed(g, player, map.spec_grid())
                    &&& map.spec_remover() == remover
                    &&& (remover is None ==> map.spec_goals() == keep_reachable(
                        g,
                        player,
                        positions_of(format, ls, Feature::Goal),
                    ))
                    &&& state.player_pos == player
                    &&& state.boxes@.to_multiset() == keep_reachable(
                        g,
                        player,
                        positions_of(format, ls, Feature::Box),
                    ).to_multiset()
                    &&& sorted(state.boxes@)
                },
            }
        }),
{
    let (grid, scanned, player_pos) = match read_cells(level, format) {
        Err(e) => return Err(e),
        Ok(t) => t,
    };
    let ghost g = grid@;
    let processed_grid = match check_reachability(&grid, player_pos) {
        Err(_) => return Err(ParseErr::IncompleteBorder),
        Ok(pg) => pg,
    };
    proof {
        assert forall|p: Pos| processed_grid@.in_bounds(p) implies #[trigger] processed_grid@.at(p) == if crate::reach::connected(g, Set::empty(), player_pos, p) {
            g.at(p)
        } else {
            MapCell::Wall
        } by {
            assert(processed_grid.at(p) == processed_grid@.at(p));
        }
        assert(processed(g, player_pos, processed_grid@));
        assert(!leaks(g, player_pos));
    }
    let (map, kept_boxes) = match check_items(
        processed_grid,
        Ghost(g),
        player_pos,
        &scanned.boxes,
        &scanned.goals,
        scanned.remover,
    ) {
        Err(e) => return Err(e),
        Ok(t) => t,
    };
    proof {
        crate::solver::lemma_keep_reachable(g, player_pos, scanned.boxes@);
    }
    Ok((map, State::new(player_pos, kept_boxes)))
}

} // verus!
