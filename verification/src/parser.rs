//! Parsing a level in the XSB format or in the custom format.
use vstd::prelude::*;

use crate::config::Format;
use crate::data::{MapCell, Pos};
use crate::grid_text::padded_cell;
use crate::level::Level;
use crate::lines::{lines, lines_view, split_lines, trim_end, trim_end_chars, trim_newlines, trim_newlines_chars};
use crate::map::{GoalMap, MapType, RemoverMap};
use crate::scan::{
    cell_at, cell_has, count_before, error_at, first_of, is_cell, lemma_no_error_sizes,
    lemma_rows_positions, ncells, no_error, no_error_before, positions_of, scan, scanned_matches,
    CellErr, Feature,
};
use crate::state::{sorted, State};
use crate::text::{chars_of, decimal, decimal_u64, push_char, push_chars};
use crate::vec2d::Vec2d;

verus! {

/// Why a level could not be parsed.
#[derive(Clone, Copy, Debug, PartialEq, Eq, Structural)]
pub enum ParserErr {
    /// A cell (row, column) that is not valid there, or a row beyond the largest level
    /// size (its column is then 0).
    Pos(usize, usize),
    MultiplePlayers,
    MultipleRemovers,
    BoxOnRemover,
    NoPlayer,
    RemoverAndGoals,
}

impl ParserErr {
    pub open spec fn spec_message(self) -> Seq<char> {
        match self {
            ParserErr::Pos(r, c) => "Invalid cell at pos: ["@ + decimal(r as int) + ", "@ + decimal(
                c as int,
            ) + "]"@,
            ParserErr::MultiplePlayers => "Too many players"@,
            ParserErr::MultipleRemovers => "Multiple removers - only one allowed"@,
            ParserErr::BoxOnRemover => "Box on remover"@,
            ParserErr::NoPlayer => "No player"@,
            ParserErr::RemoverAndGoals => "Both remover and goals"@,
        }
    }

    /// The message describing the error.
    pub fn to_string(&self) -> (s: String)
        ensures
            s@ == self.spec_message(),
    {
        let mut s = String::new();
        match self {
            ParserErr::Pos(r, c) => {
                push_chars(&mut s, &chars_of("Invalid cell at pos: ["));
                push_chars(&mut s, &decimal_u64(*r as u64));
                push_chars(&mut s, &chars_of(", "));
                push_chars(&mut s, &decimal_u64(*c as u64));
                push_char(&mut s, ']');
                proof {
                    reveal_strlit("]");
                    assert(s@ =~= self.spec_message());
                }
            },
            ParserErr::MultiplePlayers => {
                push_chars(&mut s, &chars_of("Too many players"));
            },
            ParserErr::MultipleRemovers => {
                push_chars(&mut s, &chars_of("Multiple removers - only one allowed"));
            },
            ParserErr::BoxOnRemover => {
                push_chars(&mut s, &chars_of("Box on remover"));
            },
            ParserErr::NoPlayer => {
                push_chars(&mut s, &chars_of("No player"));
            },
            ParserErr::RemoverAndGoals => {
                push_chars(&mut s, &chars_of("Both remover and goals"));
            },
        }
        proof {
            assert(s@ =~= self.spec_message());
        }
        s
    }
}

/// The lines of a level after surrounding line breaks and trailing whitespace are cut.
pub open spec fn level_lines(level: Seq<char>) -> Seq<Seq<char>> {
    lines(trim_end(trim_newlines(level)))
}

/// The first wrong cell in reading order (meaningful when there is one).
pub open spec fn first_error(fmt: Format, ls: Seq<Seq<char>>) -> (int, int) {
    choose|rk: (int, int)|
        is_cell(fmt, ls, rk.0, rk.1) && error_at(fmt, true, ls, rk.0, rk.1) is Some
            && no_error_before(fmt, true, ls, rk.0, rk.1)
}

/// The parser's error for a wrong cell.
pub open spec fn cell_parser_err(e: CellErr, r: int, k: int) -> ParserErr {
    match e {
        CellErr::Invalid => ParserErr::Pos(r as usize, k as usize),
        CellErr::MultiplePlayers => ParserErr::MultiplePlayers,
        CellErr::MultipleRemovers => ParserErr::MultipleRemovers,
        CellErr::BoxOnRemover => ParserErr::BoxOnRemover,
    }
}

/// Why the lines `ls` do not describe a level, if they do not: the first wrong cell,
/// a row beyond the largest level size, no player, or both a remover and goals.
pub open spec fn parse_error(fmt: Format, ls: Seq<Seq<char>>) -> Option<ParserErr> {
    if !no_error(fmt, true, ls) {
        let rk = first_error(fmt, ls);
        Some(cell_parser_err(error_at(fmt, true, ls, rk.0, rk.1).unwrap(), rk.0, rk.1))
    } else if ls.len() > 255 {
        Some(ParserErr::Pos(255, 0))
    } else if positions_of(fmt, ls, Feature::Player).len() == 0 {
        Some(ParserErr::NoPlayer)
    } else if positions_of(fmt, ls, Feature::Remover).len() > 0 && positions_of(
        fmt,
        ls,
        Feature::Goal,
    ).len() > 0 {
        Some(ParserErr::RemoverAndGoals)
    } else {
        None
    }
}

/// The number of cells of the longest line.
pub open spec fn max_cells(fmt: Format, ls: Seq<Seq<char>>) -> int
    decreases ls.len(),
{
    if ls.len() == 0 {
        0
    } else {
        let m = max_cells(fmt, ls.drop_last());
        if ncells(fmt, ls.last()) > m {
            ncells(fmt, ls.last())
        } else {
            m
        }
    }
}

/// The cell at `p` of the level described by `ls`; cells beyond the end of a short
/// line are empty.
pub open spec fn parsed_cell(fmt: Format, ls: Seq<Seq<char>>, p: Pos) -> MapCell {
    if (p.c as int) < ncells(fmt, ls[p.r as int]) {
        cell_at(fmt, ls, p.r as int, p.c as int)
    } else {
        MapCell::Empty
    }
}

/// `level` is the level described by the lines `ls`: its grid, its goals or its remover,
/// the player and the boxes (sorted).
pub open spec fn parsed_level(fmt: Format, ls: Seq<Seq<char>>, level: Level) -> bool {
    let grid = level.map.spec_grid();
    &&& grid.rows == ls.len()
    &&& grid.cols == max_cells(fmt, ls)
    &&& forall|p: Pos| grid.in_bounds(p) ==> #[trigger] grid.at(p) == parsed_cell(fmt, ls, p)
    &&& level.map.spec_remover() == first_of(positions_of(fmt, ls, Feature::Remover))
    &&& level.map.spec_goals() == positions_of(fmt, ls, Feature::Goal)
    &&& Some(level.state.player_pos) == first_of(positions_of(fmt, ls, Feature::Player))
    &&& level.state.boxes@.to_multiset() == positions_of(fmt, ls, Feature::Box).to_multiset()
    &&& sorted(level.state.boxes@)
}

/// There is only one first wrong cell.
proof fn lemma_first_error_unique(fmt: Format, ls: Seq<Seq<char>>, r: int, k: int)
    requires
        is_cell(fmt, ls, r, k),
        error_at(fmt, true, ls, r, k) is Some,
        no_error_before(fmt, true, ls, r, k),
    ensures
        first_error(fmt, ls) == (r, k),
{
    let w = (r, k);
    assert(is_cell(fmt, ls, w.0, w.1) && error_at(fmt, true, ls, w.0, w.1) is Some && no_error_before(
        fmt,
        true,
        ls,
        w.0,
        w.1,
    ));
    let rk = first_error(fmt, ls);
    if rk.0 < r || (rk.0 == r && rk.1 < k) {
        assert(error_at(fmt, true, ls, rk.0, rk.1) is None);
    } else if r < rk.0 || (r == rk.0 && k < rk.1) {
        assert(error_at(fmt, true, ls, r, k) is None);
    }
}

/// The longest row of the scanned rows is the line with the most cells.
pub proof fn lemma_max_cells(fmt: Format, ls: Seq<Seq<char>>, rows: Seq<Vec<MapCell>>)
    requires
        rows.len() == ls.len(),
        forall|r: int| 0 <= r < ls.len() ==> (#[trigger] rows[r])@.len() == ncells(fmt, ls[r]),
    ensures
        crate::grid_text::max_row_len(rows) == max_cells(fmt, ls),
        forall|r: int| 0 <= r < ls.len() ==> ncells(fmt, #[trigger] ls[r]) <= max_cells(fmt, ls),
    decreases ls.len(),
{
    if ls.len() > 0 {
        assert forall|r: int| 0 <= r < ls.len() - 1 implies (#[trigger] rows.drop_last()[r])@.len()
            == ncells(fmt, ls.drop_last()[r]) by {
            assert(rows.drop_last()[r] == rows[r]);
            assert(ls.drop_last()[r] == ls[r]);
        }
        lemma_max_cells(fmt, ls.drop_last(), rows.drop_last());
        assert(rows.last() == rows[rows.len() - 1]);
        assert forall|r: int| 0 <= r < ls.len() implies ncells(fmt, #[trigger] ls[r]) <= max_cells(fmt, ls) by {
            if r < ls.len() - 1 {
                assert(ls.drop_last()[r] == ls[r]);
            }
        }
    }
}

/// A level read without errors is well formed.
proof fn lemma_parsed_wf(fmt: Format, ls: Seq<Seq<char>>, level: Level)
    requires
        no_error(fmt, true, ls),
        ls.len() <= 255,
        parse_error(fmt, ls) is None,
        parsed_level(fmt, ls, level),
        level.map.spec_grid().wf(),
        forall|r: int| 0 <= r < ls.len() ==> ncells(fmt, #[trigger] ls[r]) <= max_cells(fmt, ls),
    ensures
        level.wf(),
{
    let grid = level.map.spec_grid();
    lemma_no_error_sizes(fmt, true, ls);
    lemma_rows_positions(fmt, ls, ls.len() as int, Feature::Player);
    lemma_rows_positions(fmt, ls, ls.len() as int, Feature::Box);
    lemma_rows_positions(fmt, ls, ls.len() as int, Feature::Remover);
    let players = positions_of(fmt, ls, Feature::Player);
    let boxes = positions_of(fmt, ls, Feature::Box);
    let removers = positions_of(fmt, ls, Feature::Remover);
    // the player
    let pl = players[0];
    assert(error_at(fmt, true, ls, pl.r as int, pl.c as int) is None);
    assert(grid.at(pl) == parsed_cell(fmt, ls, pl));
    // the remover
    if removers.len() > 0 {
        let rm = removers[0];
        assert(error_at(fmt, true, ls, rm.r as int, rm.c as int) is None);
        assert(grid.at(rm) == parsed_cell(fmt, ls, rm));
    }
    assert forall|p: Pos| grid.in_bounds(p) && #[trigger] grid.at(p) == MapCell::Remover implies level.map.spec_remover()
        == Some(p) by {
        assert(grid.at(p) == parsed_cell(fmt, ls, p));
        assert(is_cell(fmt, ls, p.r as int, p.c as int));
        assert(error_at(fmt, true, ls, p.r as int, p.c as int) is None);
        assert(cell_has(fmt, ls[p.r as int], p.c as int, Feature::Remover));
        assert(removers.contains(Pos { r: p.r, c: p.c }));
        let i = choose|i: int| 0 <= i < removers.len() && removers[i] == Pos { r: p.r, c: p.c };
        assert(count_before(fmt, ls, p.r as int, p.c as int, Feature::Remover) == i);
    }
    // the goals
    let goals = positions_of(fmt, ls, Feature::Goal);
    lemma_rows_positions(fmt, ls, ls.len() as int, Feature::Goal);
    assert forall|i: int| 0 <= i < goals.len() implies grid.in_bounds(#[trigger] goals[i]) && grid.at(goals[i]) == MapCell::Goal by {
        let p = goals[i];
        assert(error_at(fmt, true, ls, p.r as int, p.c as int) is None);
        assert(grid.at(p) == parsed_cell(fmt, ls, p));
    }
    // the player is not on a box
    if level.state.boxes@.contains(pl) {
        level.state.boxes@.to_multiset_ensures();
        boxes.to_multiset_ensures();
        assert(level.state.boxes@.to_multiset().count(pl) > 0);
        assert(boxes.contains(pl));
        let i = choose|i: int| 0 <= i < boxes.len() && boxes[i] == pl;
        assert(cell_has(fmt, ls[pl.r as int], pl.c as int, Feature::Box));
        assert(cell_has(fmt, ls[pl.r as int], pl.c as int, Feature::Player));
    }
    // the boxes
    assert(crate::state::distinct(boxes));
    assert forall|b: Pos| #[trigger] level.state.boxes@.to_set().contains(b) implies grid.in_bounds(b)
        && grid.at(b) != MapCell::Wall && grid.at(b) != MapCell::Remover by {
        assert(level.state.boxes@.contains(b));
        level.state.boxes@.to_multiset_ensures();
        boxes.to_multiset_ensures();
        assert(level.state.boxes@.to_multiset().count(b) > 0);
        assert(boxes.to_multiset().count(b) > 0);
        assert(boxes.contains(b));
        let i = choose|i: int| 0 <= i < boxes.len() && boxes[i] == b;
        assert(error_at(fmt, true, ls, b.r as int, b.c as int) is None);
        assert(grid.at(b) == parsed_cell(fmt, ls, b));
    }
    assert forall|i: int| 0 <= i < level.state.boxes@.len() implies grid.in_bounds(#[trigger] level.state.boxes@[i]) by {
        assert(level.state.boxes@.to_set().contains(level.state.boxes@[i]));
    }
}

/// Parses a level in `format`. Line breaks around the level and whitespace at its end
/// are ignored.
pub fn parse_format(level: &str, format: Format) -> (res: Result<Level, ParserErr>)
    ensures
        match res {
            Ok(l) => parse_error(format, level_lines(level@)) is None && parsed_level(
                format,
                level_lines(level@),
                l,
            ) && l.wf(),
            Err(e) => parse_error(format, level_lines(level@)) == Some(e),
        },
{
    let chars = chars_of(level);
    let trimmed = trim_end_chars(&trim_newlines_chars(&chars));
    let ls = split_lines(&trimmed);
    let ghost lsv = lines_view(ls@);
    assert(lsv == level_lines(level@));
    let scanned = match scan(format, true, &ls) {
        Err((e, r, k)) => {
            proof {
                lemma_first_error_unique(format, lsv, r as int, k as int);
            }
            return Err(
                match e {
                    CellErr::Invalid => ParserErr::Pos(r, k),
                    CellErr::MultiplePlayers => ParserErr::MultiplePlayers,
                    CellErr::MultipleRemovers => ParserErr::MultipleRemovers,
                    CellErr::BoxOnRemover => ParserErr::BoxOnRemover,
                },
            );
        },
        Ok(s) => s,
    };
    if ls.len() > 255 {
        return Err(ParserErr::Pos(255, 0));
    }
    let player_pos = match scanned.player_pos {
        None => return Err(ParserErr::NoPlayer),
        Some(p) => p,
    };
    proof {
        lemma_no_error_sizes(format, true, lsv);
        lemma_max_cells(format, lsv, scanned.rows@);
    }
    let grid = Vec2d::from_rows(scanned.rows.as_slice(), MapCell::Empty);
    let ghost gv = grid;
    let map = match scanned.remover {
        Some(rem) => {
            if scanned.goals.len() > 0 {
                return Err(ParserErr::RemoverAndGoals);
            }
            MapType::Remover(RemoverMap::new(grid, rem))
        },
        None => MapType::Goals(GoalMap::new(grid, scanned.goals)),
    };
    proof {
        lemma_rows_positions(format, lsv, lsv.len() as int, Feature::Box);
        assert(crate::state::distinct(scanned.boxes@));
    }
    let state = State::new(player_pos, scanned.boxes);
    let l = Level::new(map, state);
    proof {
        let g = l.map.spec_grid();
        assert(g == gv@);
        assert forall|p: Pos| g.in_bounds(p) implies #[trigger] g.at(p) == parsed_cell(format, lsv, p) by {
            assert(gv.at(p) == padded_cell(scanned.rows@, MapCell::Empty, p));
        }
        assert(g.rows == lsv.len());
        assert(g.cols == max_cells(format, lsv));
        assert(l.map.spec_remover() == first_of(positions_of(format, lsv, Feature::Remover)));
        assert(l.map.spec_goals() == positions_of(format, lsv, Feature::Goal));
        assert(Some(l.state.player_pos) == first_of(positions_of(format, lsv, Feature::Player)));
        assert(sorted(l.state.boxes@));
        lemma_parsed_wf(format, lsv, l);
    }
    Ok(l)
}

/// The first character of `level` that is not whitespace, if there is one.
pub open spec fn first_non_ws(level: Seq<char>) -> Option<char>
    decreases level.len(),
{
    if level.len() == 0 {
        None
    } else if crate::lines::is_ws(level[0]) {
        first_non_ws(level.drop_first())
    } else {
        Some(level[0])
    }
}

/// `level` holds a wall of the custom format, `<>`, which no XSB level can hold.
pub open spec fn has_custom_wall(level: Seq<char>) -> bool {
    exists|i: int| 0 <= i < level.len() - 1 && #[trigger] wall_at(level, i)
}

/// A wall `<>` of the custom format starts at `i`.
pub open spec fn wall_at(level: Seq<char>, i: int) -> bool {
    level[i] == '<' && level[i + 1] == '>'
}

/// The format of a level: custom when its first character that is not whitespace is a
/// `<` (the left half of a wall, a character XSB does not use), or when that character is
/// a box `B` or the player `P`, which both formats use, and the level holds a wall `<>`
/// of the custom format; XSB otherwise.
pub open spec fn detected_format(level: Seq<char>) -> Format {
    if first_non_ws(level) == Some('<') || ((first_non_ws(level) == Some('B') || first_non_ws(level) == Some('P'))
        && has_custom_wall(level)) {
        Format::Custom
    } else {
        Format::Xsb
    }
}

/// Parses a level in whichever format it is written.
pub fn parse(level: &str) -> (res: Result<Level, ParserErr>)
    ensures
        match res {
            Ok(l) => parse_error(detected_format(level@), level_lines(level@)) is None && parsed_level(
                detected_format(level@),
                level_lines(level@),
                l,
            ) && l.wf(),
            Err(e) => parse_error(detected_format(level@), level_lines(level@)) == Some(e),
        },
{
    let cs = chars_of(level);
    let mut i: usize = 0;
    proof {
        assert(cs@.subrange(0, cs@.len() as int) =~= cs@);
    }
    while i < cs.len() && crate::lines::is_whitespace(cs[i])
        invariant
            cs@ == level@,
            i <= cs@.len(),
            first_non_ws(cs@) == first_non_ws(cs@.subrange(i as int, cs@.len() as int)),
        decreases cs@.len() - i,
    {
        proof {
            assert(cs@.subrange(i as int, cs@.len() as int).drop_first() =~= cs@.subrange(i + 1, cs@.len() as int));
        }
        i = i + 1;
    }
    let mut wall = false;
    let mut j: usize = 0;
    while j < cs.len() && j + 1 < cs.len()
        invariant
            cs@ == level@,
            j <= cs@.len(),
            i <= cs@.len(),
            first_non_ws(cs@) == first_non_ws(cs@.subrange(i as int, cs@.len() as int)),
            i < cs@.len() ==> !crate::lines::is_ws(cs@[i as int]),
            wall == exists|k: int| 0 <= k < j && k + 1 < cs@.len() && #[trigger] wall_at(cs@, k),
        decreases cs@.len() - j,
    {
        if cs[j] == '<' && cs[j + 1] == '>' {
            wall = true;
            assert(wall_at(cs@, j as int));
        }
        j = j + 1;
    }
    let custom = i < cs.len() && (cs[i] == '<' || ((cs[i] == 'B' || cs[i] == 'P') && wall));
    proof {
        let rest = cs@.subrange(i as int, cs@.len() as int);
        if i < cs.len() {
            assert(rest[0] == cs@[i as int]);
        } else {
            assert(rest.len() == 0);
        }
        if has_custom_wall(cs@) {
            let k = choose|k: int| 0 <= k < cs@.len() - 1 && #[trigger] wall_at(cs@, k);
            assert(k < j);
        }
        assert(custom == (detected_format(level@) == Format::Custom));
    }
    if custom {
        parse_format(level, Format::Custom)
    } else {
        parse_format(level, Format::Xsb)
    }
}

impl std::str::FromStr for Level {
    type Err = ParserErr;

    fn from_str(s: &str) -> (res: Result<Level, ParserErr>)
        ensures
            match res {
                Ok(l) => parse_error(detected_format(s@), level_lines(s@)) is None && parsed_level(
                    detected_format(s@),
                    level_lines(s@),
                    l,
                ) && l.wf(),
                Err(e) => parse_error(detected_format(s@), level_lines(s@)) == Some(e),
            },
    {
        parse(s)
    }
}

} // verus!
