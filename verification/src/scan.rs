//! Reading the cells of a level, in either format, in reading order.
use vstd::prelude::*;

use crate::config::Format;
use crate::data::{MapCell, Pos};
use crate::lines::lines_view;

verus! {

/// What one cell of the level text holds.
#[derive(Clone, Copy, Debug, PartialEq, Eq, Structural)]
pub struct Token {
    pub cell: MapCell,
    pub player: bool,
    pub has_box: bool,
    pub goal: bool,
    pub remover: bool,
}

/// What is wrong with a cell.
#[derive(Clone, Copy, Debug, PartialEq, Eq, Structural)]
pub enum CellErr {
    /// A character that does not belong there, or a cell beyond the largest level size.
    Invalid,
    MultiplePlayers,
    MultipleRemovers,
    BoxOnRemover,
}

/// A property of a cell that is counted or collected.
#[derive(Clone, Copy, Debug, PartialEq, Eq, Structural)]
pub enum Feature {
    Player,
    Box,
    Goal,
    Remover,
}

pub open spec fn has_feature(t: Token, f: Feature) -> bool {
    match f {
        Feature::Player => t.player,
        Feature::Box => t.has_box,
        Feature::Goal => t.goal,
        Feature::Remover => t.remover,
    }
}

pub open spec fn tok(cell: MapCell, player: bool, has_box: bool, goal: bool, remover: bool) -> Token {
    Token { cell, player, has_box, goal, remover }
}

/// One character of the XSB format.
pub open spec fn xsb_token(ch: char) -> Option<Token> {
    if ch == '#' {
        Some(tok(MapCell::Wall, false, false, false, false))
    } else if ch == 'p' || ch == '@' {
        Some(tok(MapCell::Empty, true, false, false, false))
    } else if ch == 'P' || ch == '+' {
        Some(tok(MapCell::Goal, true, false, true, false))
    } else if ch == 'b' || ch == '$' {
        Some(tok(MapCell::Empty, false, true, false, false))
    } else if ch == 'B' || ch == '*' {
        Some(tok(MapCell::Goal, false, true, true, false))
    } else if ch == 'r' {
        Some(tok(MapCell::Remover, false, false, false, true))
    } else if ch == 'R' {
        Some(tok(MapCell::Remover, true, false, false, true))
    } else if ch == '.' {
        Some(tok(MapCell::Goal, false, false, true, false))
    } else if ch == ' ' || ch == '-' || ch == '_' {
        Some(tok(MapCell::Empty, false, false, false, false))
    } else {
        None
    }
}

/// The first character of a cell of the custom format: (player, box).
pub open spec fn custom_first(c1: char) -> Option<(bool, bool)> {
    if c1 == ' ' {
        Some((false, false))
    } else if c1 == 'B' {
        Some((false, true))
    } else if c1 == 'P' {
        Some((true, false))
    } else {
        None
    }
}

/// The second character of a cell of the custom format: (cell, goal, remover).
pub open spec fn custom_second(c2: char) -> Option<(MapCell, bool, bool)> {
    if c2 == ' ' {
        Some((MapCell::Empty, false, false))
    } else if c2 == '_' {
        Some((MapCell::Goal, true, false))
    } else if c2 == 'R' {
        Some((MapCell::Remover, false, true))
    } else {
        None
    }
}

/// Two characters of the custom format.
pub open spec fn custom_token(c1: char, c2: char) -> Option<Token> {
    if c1 == '<' {
        if c2 == '>' {
            Some(tok(MapCell::Wall, false, false, false, false))
        } else {
            None
        }
    } else {
        match (custom_first(c1), custom_second(c2)) {
            (Some((pl, bx)), Some((cell, g, rm))) => Some(tok(cell, pl, bx, g, rm)),
            _ => None,
        }
    }
}

/// The number of cells of a line.
pub open spec fn ncells(fmt: Format, line: Seq<char>) -> int {
    match fmt {
        Format::Xsb => line.len() as int,
        Format::Custom => line.len() as int / 2,
    }
}

/// The characters of cell `k` of a line (the second one only in the custom format).
pub open spec fn cell_chars(fmt: Format, line: Seq<char>, k: int) -> (char, char) {
    match fmt {
        Format::Xsb => (line[k], ' '),
        Format::Custom => (line[2 * k], line[2 * k + 1]),
    }
}

pub open spec fn token_of(fmt: Format, cc: (char, char)) -> Option<Token> {
    match fmt {
        Format::Xsb => xsb_token(cc.0),
        Format::Custom => custom_token(cc.0, cc.1),
    }
}

/// What is wrong with a cell, given whether a player (`pb`) and a remover (`rb`) came
/// before it; `chk` asks for the check of a box on the remover.
pub open spec fn cell_error(fmt: Format, chk: bool, r: int, k: int, cc: (char, char), pb: bool, rb: bool) -> Option<
    CellErr,
> {
    if r >= 255 || k >= 255 {
        Some(CellErr::Invalid)
    } else {
        match fmt {
            Format::Xsb => match xsb_token(cc.0) {
                None => Some(CellErr::Invalid),
                Some(t) => if t.player && pb {
                    Some(CellErr::MultiplePlayers)
                } else if t.remover && rb {
                    Some(CellErr::MultipleRemovers)
                } else {
                    None
                },
            },
            Format::Custom => if cc.0 == '<' {
                if cc.1 == '>' {
                    None
                } else {
                    Some(CellErr::Invalid)
                }
            } else {
                match custom_first(cc.0) {
                    None => Some(CellErr::Invalid),
                    Some((pl, bx)) => if pl && pb {
                        Some(CellErr::MultiplePlayers)
                    } else {
                        match custom_second(cc.1) {
                            None => Some(CellErr::Invalid),
                            Some((_, _, rm)) => if rm && rb {
                                Some(CellErr::MultipleRemovers)
                            } else if rm && bx && chk {
                                Some(CellErr::BoxOnRemover)
                            } else {
                                None
                            },
                        }
                    }
                }
            },
        }
    }
}

/// Whether cell `k` of a line has feature `f`.
pub open spec fn cell_has(fmt: Format, line: Seq<char>, k: int, f: Feature) -> bool {
    match token_of(fmt, cell_chars(fmt, line, k)) {
        Some(t) => has_feature(t, f),
        None => false,
    }
}

/// The number of the first `k` cells of a line with feature `f`.
pub open spec fn line_count(fmt: Format, line: Seq<char>, k: int, f: Feature) -> nat
    decreases k,
{
    if k <= 0 {
        0
    } else {
        line_count(fmt, line, k - 1, f) + (if cell_has(fmt, line, k - 1, f) {
            1nat
        } else {
            0nat
        })
    }
}

/// The number of cells of the first `r` lines with feature `f`.
pub open spec fn rows_count(fmt: Format, ls: Seq<Seq<char>>, r: int, f: Feature) -> nat
    decreases r,
{
    if r <= 0 {
        0
    } else {
        rows_count(fmt, ls, r - 1, f) + line_count(fmt, ls[r - 1], ncells(fmt, ls[r - 1]), f)
    }
}

/// The number of cells before cell (`r`, `k`) in reading order with feature `f`.
pub open spec fn count_before(fmt: Format, ls: Seq<Seq<char>>, r: int, k: int, f: Feature) -> nat {
    rows_count(fmt, ls, r, f) + line_count(fmt, ls[r], k, f)
}

/// The positions of the first `k` cells of line `r` with feature `f`.
pub open spec fn line_positions(fmt: Format, line: Seq<char>, r: int, k: int, f: Feature) -> Seq<Pos>
    decreases k,
{
    if k <= 0 {
        Seq::empty()
    } else {
        let prev = line_positions(fmt, line, r, k - 1, f);
        if cell_has(fmt, line, k - 1, f) {
            prev.push(Pos { r: r as u8, c: (k - 1) as u8 })
        } else {
            prev
        }
    }
}

/// The positions of the cells of the first `r` lines with feature `f`, in reading order.
pub open spec fn rows_positions(fmt: Format, ls: Seq<Seq<char>>, r: int, f: Feature) -> Seq<Pos>
    decreases r,
{
    if r <= 0 {
        Seq::empty()
    } else {
        rows_positions(fmt, ls, r - 1, f) + line_positions(
            fmt,
            ls[r - 1],
            r - 1,
            ncells(fmt, ls[r - 1]),
            f,
        )
    }
}

/// The positions of all cells with feature `f`, in reading order.
pub open spec fn positions_of(fmt: Format, ls: Seq<Seq<char>>, f: Feature) -> Seq<Pos> {
    rows_positions(fmt, ls, ls.len() as int, f)
}

/// (`r`, `k`) is a cell of the text.
pub open spec fn is_cell(fmt: Format, ls: Seq<Seq<char>>, r: int, k: int) -> bool {
    0 <= r < ls.len() && 0 <= k < ncells(fmt, ls[r])
}

/// What is wrong with cell (`r`, `k`).
pub open spec fn error_at(fmt: Format, chk: bool, ls: Seq<Seq<char>>, r: int, k: int) -> Option<CellErr> {
    cell_error(
        fmt,
        chk,
        r,
        k,
        cell_chars(fmt, ls[r], k),
        count_before(fmt, ls, r, k, Feature::Player) > 0,
        count_before(fmt, ls, r, k, Feature::Remover) > 0,
    )
}

/// No cell before (`r`, `k`) in reading order is wrong.
pub open spec fn no_error_before(fmt: Format, chk: bool, ls: Seq<Seq<char>>, r: int, k: int) -> bool {
    forall|r1: int, k1: int|
        is_cell(fmt, ls, r1, k1) && (r1 < r || (r1 == r && k1 < k)) ==> #[trigger] error_at(
            fmt,
            chk,
            ls,
            r1,
            k1,
        ) is None
}

/// No cell is wrong.
pub open spec fn no_error(fmt: Format, chk: bool, ls: Seq<Seq<char>>) -> bool {
    no_error_before(fmt, chk, ls, ls.len() as int, 0)
}

/// The map cell at (`r`, `k`).
pub open spec fn cell_at(fmt: Format, ls: Seq<Seq<char>>, r: int, k: int) -> MapCell {
    match token_of(fmt, cell_chars(fmt, ls[r], k)) {
        Some(t) => t.cell,
        None => MapCell::Empty,
    }
}

/// The cells of the level, row by row.
pub struct Scanned {
    pub rows: Vec<Vec<MapCell>>,
    pub goals: Vec<Pos>,
    pub remover: Option<Pos>,
    pub boxes: Vec<Pos>,
    pub player_pos: Option<Pos>,
}

/// The first position with feature `f`, when there is one.
pub open spec fn first_of(s: Seq<Pos>) -> Option<Pos> {
    if s.len() > 0 {
        Some(s[0])
    } else {
        None
    }
}

/// What a successful scan of `ls` gives.
pub open spec fn scanned_matches(fmt: Format, ls: Seq<Seq<char>>, s: Scanned) -> bool {
    &&& s.rows@.len() == ls.len()
    &&& forall|r: int|
        0 <= r < ls.len() ==> (#[trigger] s.rows@[r])@.len() == ncells(fmt, ls[r])
    &&& forall|r: int, k: int| is_cell(fmt, ls, r, k) ==> s.rows@[r]@[k] == cell_at(fmt, ls, r, k)
    &&& s.goals@ == positions_of(fmt, ls, Feature::Goal)
    &&& s.boxes@ == positions_of(fmt, ls, Feature::Box)
    &&& s.player_pos == first_of(positions_of(fmt, ls, Feature::Player))
    &&& s.remover == first_of(positions_of(fmt, ls, Feature::Remover))
}

pub fn xsb_classify(ch: char) -> (t: Option<Token>)
    ensures
        t == xsb_token(ch),
{
    if ch == '#' {
        Some(Token { cell: MapCell::Wall, player: false, has_box: false, goal: false, remover: false })
    } else if ch == 'p' || ch == '@' {
        Some(Token { cell: MapCell::Empty, player: true, has_box: false, goal: false, remover: false })
    } else if ch == 'P' || ch == '+' {
        Some(Token { cell: MapCell::Goal, player: true, has_box: false, goal: true, remover: false })
    } else if ch == 'b' || ch == '$' {
        Some(Token { cell: MapCell::Empty, player: false, has_box: true, goal: false, remover: false })
    } else if ch == 'B' || ch == '*' {
        Some(Token { cell: MapCell::Goal, player: false, has_box: true, goal: true, remover: false })
    } else if ch == 'r' {
        Some(Token { cell: MapCell::Remover, player: false, has_box: false, goal: false, remover: true })
    } else if ch == 'R' {
        Some(Token { cell: MapCell::Remover, player: true, has_box: false, goal: false, remover: true })
    } else if ch == '.' {
        Some(Token { cell: MapCell::Goal, player: false, has_box: false, goal: true, remover: false })
    } else if ch == ' ' || ch == '-' || ch == '_' {
        Some(Token { cell: MapCell::Empty, player: false, has_box: false, goal: false, remover: false })
    } else {
        None
    }
}

fn custom_first_exec(c1: char) -> (r: Option<(bool, bool)>)
    ensures
        r == custom_first(c1),
{
    if c1 == ' ' {
        Some((false, false))
    } else if c1 == 'B' {
        Some((false, true))
    } else if c1 == 'P' {
        Some((true, false))
    } else {
        None
    }
}

fn custom_second_exec(c2: char) -> (r: Option<(MapCell, bool, bool)>)
    ensures
        r == custom_second(c2),
{
    if c2 == ' ' {
        Some((MapCell::Empty, false, false))
    } else if c2 == '_' {
        Some((MapCell::Goal, true, false))
    } else if c2 == 'R' {
        Some((MapCell::Remover, false, true))
    } else {
        None
    }
}

/// Reads one cell: its token, or what is wrong with it.
fn read_cell(fmt: Format, chk: bool, r: usize, k: usize, cc: (char, char), pb: bool, rb: bool) -> (res:
    Result<Token, CellErr>)
    ensures
        match res {
            Ok(t) => cell_error(fmt, chk, r as int, k as int, cc, pb, rb) is None && token_of(fmt, cc)
                == Some(t),
            Err(e) => cell_error(fmt, chk, r as int, k as int, cc, pb, rb) == Some(e),
        },
{
    if r >= 255 || k >= 255 {
        return Err(CellErr::Invalid);
    }
    match fmt {
        Format::Xsb => match xsb_classify(cc.0) {
            None => Err(CellErr::Invalid),
            Some(t) => if t.player && pb {
                Err(CellErr::MultiplePlayers)
            } else if t.remover && rb {
                Err(CellErr::MultipleRemovers)
            } else {
                Ok(t)
            },
        },
        Format::Custom => if cc.0 == '<' {
            if cc.1 == '>' {
                Ok(Token { cell: MapCell::Wall, player: false, has_box: false, goal: false, remover: false })
            } else {
                Err(CellErr::Invalid)
            }
        } else {
            match custom_first_exec(cc.0) {
                None => Err(CellErr::Invalid),
                Some((pl, bx)) => if pl && pb {
                    Err(CellErr::MultiplePlayers)
                } else {
                    match custom_second_exec(cc.1) {
                        None => Err(CellErr::Invalid),
                        Some((cell, g, rm)) => if rm && rb {
                            Err(CellErr::MultipleRemovers)
                        } else if rm && bx && chk {
                            Err(CellErr::BoxOnRemover)
                        } else {
                            Ok(Token { cell, player: pl, has_box: bx, goal: g, remover: rm })
                        },
                    }
                },
            }
        },
    }
}

proof fn lemma_first_of_push(s: Seq<Pos>, p: Pos)
    ensures
        first_of(s.push(p)) == (if s.len() > 0 {
            first_of(s)
        } else {
            Some(p)
        }),
{
}

/// Reads all cells in reading order; stops at the first wrong cell.
pub fn scan(fmt: Format, chk: bool, lines: &Vec<Vec<char>>) -> (res: Result<Scanned, (CellErr, usize, usize)>)
    ensures
        match res {
            Ok(s) => no_error(fmt, chk, lines_view(lines@)) && scanned_matches(fmt, lines_view(lines@), s),
            Err((e, r, k)) => is_cell(fmt, lines_view(lines@), r as int, k as int) && error_at(
                fmt,
                chk,
                lines_view(lines@),
                r as int,
                k as int,
            ) == Some(e) && no_error_before(fmt, chk, lines_view(lines@), r as int, k as int),
        },
{
    let ghost ls = lines_view(lines@);
    let mut rows: Vec<Vec<MapCell>> = Vec::new();
    let mut goals: Vec<Pos> = Vec::new();
    let mut remover: Option<Pos> = None;
    let mut boxes: Vec<Pos> = Vec::new();
    let mut player_pos: Option<Pos> = None;
    let mut r: usize = 0;
    while r < lines.len()
        invariant
            ls == lines_view(lines@),
            r <= lines@.len(),
            rows@.len() == r,
            forall|i: int| 0 <= i < r ==> (#[trigger] rows@[i])@.len() == ncells(fmt, ls[i]),
            forall|i: int, k: int| 0 <= i < r && is_cell(fmt, ls, i, k) ==> rows@[i]@[k] == cell_at(fmt, ls, i, k),
            goals@ == rows_positions(fmt, ls, r as int, Feature::Goal),
            boxes@ == rows_positions(fmt, ls, r as int, Feature::Box),
            player_pos == first_of(rows_positions(fmt, ls, r as int, Feature::Player)),
            remover == first_of(rows_positions(fmt, ls, r as int, Feature::Remover)),
            player_pos is Some <==> rows_count(fmt, ls, r as int, Feature::Player) > 0,
            remover is Some <==> rows_count(fmt, ls, r as int, Feature::Remover) > 0,
            no_error_before(fmt, chk, ls, r as int, 0),
        decreases lines@.len() - r,
    {
        let line = &lines[r];
        proof {
            assert(ls[r as int] == line@);
        }
        let n: usize = match fmt {
            Format::Xsb => line.len(),
            Format::Custom => line.len() / 2,
        };
        let len = line.len();
        let mut row: Vec<MapCell> = Vec::new();
        let mut k: usize = 0;
        while k < n
            invariant
                len == line@.len(),
                ls == lines_view(lines@),
                r < lines@.len(),
                ls[r as int] == line@,
                n == ncells(fmt, line@),
                k <= n,
                row@.len() == k,
                forall|j: int| 0 <= j < k ==> row@[j] == cell_at(fmt, ls, r as int, j),
                goals@ == rows_positions(fmt, ls, r as int, Feature::Goal) + line_positions(fmt, line@, r as int, k as int, Feature::Goal),
                boxes@ == rows_positions(fmt, ls, r as int, Feature::Box) + line_positions(fmt, line@, r as int, k as int, Feature::Box),
                player_pos == first_of(rows_positions(fmt, ls, r as int, Feature::Player) + line_positions(fmt, line@, r as int, k as int, Feature::Player)),
                remover == first_of(rows_positions(fmt, ls, r as int, Feature::Remover) + line_positions(fmt, line@, r as int, k as int, Feature::Remover)),
                player_pos is Some <==> count_before(fmt, ls, r as int, k as int, Feature::Player) > 0,
                remover is Some <==> count_before(fmt, ls, r as int, k as int, Feature::Remover) > 0,
                no_error_before(fmt, chk, ls, r as int, k as int),
            decreases n - k,
        {
            proof {
                if fmt == Format::Custom {
                    assert(2 * (k as int) + 1 < len);
                }
            }
            let cc: (char, char) = match fmt {
                Format::Xsb => (line[k], ' '),
                Format::Custom => (line[2 * k], line[2 * k + 1]),
            };
            proof {
                assert(cc == cell_chars(fmt, line@, k as int));
            }
            let t = match read_cell(fmt, chk, r, k, cc, player_pos.is_some(), remover.is_some()) {
                Ok(t) => t,
                Err(e) => {
                    return Err((e, r, k));
                },
            };
            let pos = Pos { r: r as u8, c: k as u8 };
            proof {
                assert(cell_at(fmt, ls, r as int, k as int) == t.cell);
            }
            let ghost g0 = goals@;
            let ghost b0 = boxes@;
            if t.goal {
                goals.push(pos);
            }
            if t.has_box {
                boxes.push(pos);
            }
            if t.player {
                proof {
                    lemma_first_of_push(rows_positions(fmt, ls, r as int, Feature::Player) + line_positions(fmt, line@, r as int, k as int, Feature::Player), pos);
                    assert(rows_positions(fmt, ls, r as int, Feature::Player) + line_positions(fmt, line@, r as int, k as int + 1, Feature::Player)
                        =~= (rows_positions(fmt, ls, r as int, Feature::Player) + line_positions(fmt, line@, r as int, k as int, Feature::Player)).push(pos));
                }
                player_pos = Some(pos);
            }
            if t.remover {
                proof {
                    lemma_first_of_push(rows_positions(fmt, ls, r as int, Feature::Remover) + line_positions(fmt, line@, r as int, k as int, Feature::Remover), pos);
                    assert(rows_positions(fmt, ls, r as int, Feature::Remover) + line_positions(fmt, line@, r as int, k as int + 1, Feature::Remover)
                        =~= (rows_positions(fmt, ls, r as int, Feature::Remover) + line_positions(fmt, line@, r as int, k as int, Feature::Remover)).push(pos));
                }
                remover = Some(pos);
            }
            row.push(t.cell);
            proof {
                assert(goals@ =~= rows_positions(fmt, ls, r as int, Feature::Goal) + line_positions(fmt, line@, r as int, k as int + 1, Feature::Goal));
                assert(boxes@ =~= rows_positions(fmt, ls, r as int, Feature::Box) + line_positions(fmt, line@, r as int, k as int + 1, Feature::Box));
                assert forall|r1: int, k1: int|
                    is_cell(fmt, ls, r1, k1) && (r1 < r || (r1 == r && k1 < k + 1)) implies #[trigger] error_at(fmt, chk, ls, r1, k1) is None by {
                    if r1 == r && k1 == k {
                    }
                }
            }
            k = k + 1;
        }
        proof {
            assert forall|r1: int, k1: int|
                is_cell(fmt, ls, r1, k1) && (r1 < r + 1 || (r1 == r + 1 && k1 < 0)) implies #[trigger] error_at(fmt, chk, ls, r1, k1) is None by {
                if r1 == r {
                    assert(k1 < n);
                }
            }
            assert(rows_positions(fmt, ls, r as int + 1, Feature::Goal) == rows_positions(fmt, ls, r as int, Feature::Goal) + line_positions(fmt, line@, r as int, n as int, Feature::Goal));
            assert(rows_positions(fmt, ls, r as int + 1, Feature::Player) == rows_positions(fmt, ls, r as int, Feature::Player) + line_positions(fmt, line@, r as int, n as int, Feature::Player));
            assert(rows_positions(fmt, ls, r as int + 1, Feature::Remover) == rows_positions(fmt, ls, r as int, Feature::Remover) + line_positions(fmt, line@, r as int, n as int, Feature::Remover));
        }
        let ghost rows0 = rows@;
        rows.push(row);
        proof {
            assert forall|i: int, k: int| 0 <= i < r + 1 && is_cell(fmt, ls, i, k) implies rows@[i]@[k] == cell_at(fmt, ls, i, k) by {
                if i < r {
                    assert(rows@[i] == rows0[i]);
                }
            }
        }
        r = r + 1;
    }
    Ok(Scanned { rows, goals, remover, boxes, player_pos })
}

} // verus!

verus! {

/// Facts about the positions collected from the first `k` cells of line `r`.
pub proof fn lemma_line_positions(fmt: Format, line: Seq<char>, r: int, k: int, f: Feature)
    requires
        0 <= r < 255,
        0 <= k <= 255,
    ensures
        line_positions(fmt, line, r, k, f).len() == line_count(fmt, line, k, f),
        forall|i: int|
            0 <= i < line_positions(fmt, line, r, k, f).len() ==> {
                let p = #[trigger] line_positions(fmt, line, r, k, f)[i];
                &&& p.r == r
                &&& p.c < k
                &&& cell_has(fmt, line, p.c as int, f)
                &&& line_count(fmt, line, p.c as int, f) == i
            },
        forall|i: int, j: int|
            0 <= i < j < line_positions(fmt, line, r, k, f).len() ==> (#[trigger] line_positions(
                fmt,
                line,
                r,
                k,
                f,
            )[i]).c < (#[trigger] line_positions(fmt, line, r, k, f)[j]).c,
        forall|j: int|
            0 <= j < k && cell_has(fmt, line, j, f) ==> line_positions(fmt, line, r, k, f).contains(
                Pos { r: r as u8, c: j as u8 },
            ),
    decreases k,
{
    if k > 0 {
        lemma_line_positions(fmt, line, r, k - 1, f);
        let prev = line_positions(fmt, line, r, k - 1, f);
        let cur = line_positions(fmt, line, r, k, f);
        assert forall|j: int|
            0 <= j < k && cell_has(fmt, line, j, f) implies cur.contains(
            Pos { r: r as u8, c: j as u8 },
        ) by {
            if j < k - 1 {
                let i = choose|i: int| 0 <= i < prev.len() && prev[i] == Pos { r: r as u8, c: j as u8 };
                assert(cur[i] == prev[i]);
            } else {
                assert(cur[cur.len() - 1] == Pos { r: r as u8, c: j as u8 });
            }
        }
    }
}

/// Facts about the positions collected from the first `r` lines.
pub proof fn lemma_rows_positions(fmt: Format, ls: Seq<Seq<char>>, r: int, f: Feature)
    requires
        0 <= r <= ls.len(),
        r <= 255,
        forall|i: int| 0 <= i < r ==> ncells(fmt, #[trigger] ls[i]) <= 255,
    ensures
        rows_positions(fmt, ls, r, f).len() == rows_count(fmt, ls, r, f),
        forall|i: int|
            0 <= i < rows_positions(fmt, ls, r, f).len() ==> {
                let p = #[trigger] rows_positions(fmt, ls, r, f)[i];
                &&& p.r < r
                &&& is_cell(fmt, ls, p.r as int, p.c as int)
                &&& cell_has(fmt, ls[p.r as int], p.c as int, f)
                &&& count_before(fmt, ls, p.r as int, p.c as int, f) == i
            },
        forall|i: int, j: int|
            0 <= i < j < rows_positions(fmt, ls, r, f).len() ==> (#[trigger] rows_positions(
                fmt,
                ls,
                r,
                f,
            )[i]).spec_lt(#[trigger] rows_positions(fmt, ls, r, f)[j]),
        forall|r1: int, k1: int|
            0 <= r1 < r && is_cell(fmt, ls, r1, k1) && cell_has(fmt, ls[r1], k1, f) ==> rows_positions(
                fmt,
                ls,
                r,
                f,
            ).contains(Pos { r: r1 as u8, c: k1 as u8 }),
    decreases r,
{
    if r > 0 {
        lemma_rows_positions(fmt, ls, r - 1, f);
        let n = ncells(fmt, ls[r - 1]);
        lemma_line_positions(fmt, ls[r - 1], r - 1, n, f);
        let prev = rows_positions(fmt, ls, r - 1, f);
        let lp = line_positions(fmt, ls[r - 1], r - 1, n, f);
        let cur = rows_positions(fmt, ls, r, f);
        assert(cur == prev + lp);
        assert forall|i: int| 0 <= i < cur.len() implies {
            let p = #[trigger] cur[i];
            &&& p.r < r
            &&& is_cell(fmt, ls, p.r as int, p.c as int)
            &&& cell_has(fmt, ls[p.r as int], p.c as int, f)
            &&& count_before(fmt, ls, p.r as int, p.c as int, f) == i
        } by {
            if i < prev.len() {
                assert(cur[i] == prev[i]);
            } else {
                assert(cur[i] == lp[i - prev.len()]);
            }
        }
        assert forall|i: int, j: int| 0 <= i < j < cur.len() implies (#[trigger] cur[i]).spec_lt(
            #[trigger] cur[j],
        ) by {
            if j < prev.len() {
                assert(cur[i] == prev[i] && cur[j] == prev[j]);
            } else if i < prev.len() {
                assert(cur[i] == prev[i] && cur[j] == lp[j - prev.len()]);
            } else {
                assert(cur[i] == lp[i - prev.len()] && cur[j] == lp[j - prev.len()]);
            }
        }
        assert forall|r1: int, k1: int|
            0 <= r1 < r && is_cell(fmt, ls, r1, k1) && cell_has(fmt, ls[r1], k1, f) implies cur.contains(
            Pos { r: r1 as u8, c: k1 as u8 },
        ) by {
            if r1 < r - 1 {
                let i = choose|i: int| 0 <= i < prev.len() && prev[i] == Pos { r: r1 as u8, c: k1 as u8 };
                assert(cur[i] == prev[i]);
            } else {
                assert(lp.contains(Pos { r: r1 as u8, c: k1 as u8 }));
                let i = choose|i: int| 0 <= i < lp.len() && lp[i] == Pos { r: r1 as u8, c: k1 as u8 };
                assert(cur[prev.len() + i] == lp[i]);
            }
        }
    }
}

/// Without wrong cells, every cell lies within the largest level size.
pub proof fn lemma_no_error_sizes(fmt: Format, chk: bool, ls: Seq<Seq<char>>)
    requires
        no_error(fmt, chk, ls),
    ensures
        forall|i: int| 0 <= i < ls.len() ==> ncells(fmt, #[trigger] ls[i]) <= 255,
        forall|i: int| 0 <= i < ls.len() && ncells(fmt, ls[i]) > 0 ==> i < 255,
{
    assert forall|i: int| 0 <= i < ls.len() implies ncells(fmt, #[trigger] ls[i]) <= 255 by {
        if ncells(fmt, ls[i]) > 255 {
            assert(error_at(fmt, chk, ls, i, 255) is None);
        }
    }
    assert forall|i: int| 0 <= i < ls.len() && ncells(fmt, ls[i]) > 0 implies i < 255 by {
        assert(error_at(fmt, chk, ls, i, 0) is None);
    }
}

} // verus!
