//! The characters of the two level formats: what the printer writes for a cell is what
//! the parser reads back, in both directions.
use vstd::prelude::*;

use crate::config::Format;
use crate::data::{Contents, MapCell};
use crate::map_formatter::{cell_text, printable};
use crate::scan::{cell_at, cell_chars, cell_has, custom_token, is_cell, tok, xsb_token, Feature, Token};

verus! {

/// What stands on a cell read by the parser, as the printer names it (a player hides a box).
pub open spec fn token_contents(t: Token) -> Contents {
    if t.player {
        Contents::Player
    } else if t.has_box {
        Contents::Box
    } else {
        Contents::Empty
    }
}

/// The reading of a cell that is `cell` and holds `contents`: a goal cell marks a goal, the
/// remover cell marks the remover.
pub open spec fn token_for(cell: MapCell, contents: Contents) -> Token {
    tok(
        cell,
        contents == Contents::Player,
        contents == Contents::Box,
        cell == MapCell::Goal,
        cell == MapCell::Remover,
    )
}

/// Printing a cell in the XSB format and reading the character back gives the same cell
/// with the same contents, for every cell the format can show: a player on a goal stays a
/// player on a goal, and the goal stays among the goals.
pub proof fn lemma_xsb_print_then_read(cell: MapCell, contents: Contents)
    requires
        printable(Format::Xsb, cell, contents),
    ensures
        cell_text(Format::Xsb, cell, contents).len() == 1,
        xsb_token(cell_text(Format::Xsb, cell, contents)[0]) == Some(token_for(cell, contents)),
{
}

/// Printing a cell in the custom format and reading its two characters back gives the same
/// cell with the same contents (a wall holds nothing).
pub proof fn lemma_custom_print_then_read(cell: MapCell, contents: Contents)
    requires
        cell == MapCell::Wall ==> contents == Contents::Empty,
    ensures
        cell_text(Format::Custom, cell, contents).len() == 2,
        custom_token(cell_text(Format::Custom, cell, contents)[0], cell_text(Format::Custom, cell, contents)[1])
            == Some(token_for(cell, contents)),
{
}

/// Every character the XSB parser reads stands for a cell the format can show, and
/// printing that cell gives a character read the same way.
pub proof fn lemma_xsb_read_then_print(ch: char)
    requires
        xsb_token(ch) is Some,
    ensures
        printable(Format::Xsb, xsb_token(ch).unwrap().cell, token_contents(xsb_token(ch).unwrap())),
        token_for(xsb_token(ch).unwrap().cell, token_contents(xsb_token(ch).unwrap())) == xsb_token(ch).unwrap(),
        xsb_token(
            cell_text(Format::Xsb, xsb_token(ch).unwrap().cell, token_contents(xsb_token(ch).unwrap()))[0],
        ) == xsb_token(ch),
{
}

/// Every two characters the custom parser reads stand for a cell that prints as two
/// characters read the same way.
pub proof fn lemma_custom_read_then_print(c1: char, c2: char)
    requires
        custom_token(c1, c2) is Some,
    ensures
        token_for(custom_token(c1, c2).unwrap().cell, token_contents(custom_token(c1, c2).unwrap())) == custom_token(
            c1,
            c2,
        ).unwrap(),
        custom_token(
            cell_text(Format::Custom, custom_token(c1, c2).unwrap().cell, token_contents(custom_token(c1, c2).unwrap()))[0],
            cell_text(Format::Custom, custom_token(c1, c2).unwrap().cell, token_contents(custom_token(c1, c2).unwrap()))[1],
        ) == custom_token(c1, c2),
{
}

/// In an XSB level, a player standing on a goal (`+`, or `P`) is read as a goal cell that
/// is among the goals and holds the player, wherever it stands.
pub proof fn lemma_xsb_player_on_goal(ls: Seq<Seq<char>>, r: int, k: int)
    requires
        is_cell(Format::Xsb, ls, r, k),
        cell_chars(Format::Xsb, ls[r], k).0 == '+' || cell_chars(Format::Xsb, ls[r], k).0 == 'P',
    ensures
        cell_at(Format::Xsb, ls, r, k) == MapCell::Goal,
        cell_has(Format::Xsb, ls[r], k, Feature::Goal),
        cell_has(Format::Xsb, ls[r], k, Feature::Player),
        !cell_has(Format::Xsb, ls[r], k, Feature::Box),
{
}

/// The alternative XSB characters (for levels written where the usual ones are awkward)
/// read exactly as the usual ones: `p` as `@`, `P` as `+`, `b` as `$`, `B` as `*`, and
/// `-` and `_` as a space.
pub proof fn lemma_xsb_alternatives()
    ensures
        xsb_token('p') == xsb_token('@'),
        xsb_token('P') == xsb_token('+'),
        xsb_token('b') == xsb_token('$'),
        xsb_token('B') == xsb_token('*'),
        xsb_token('-') == xsb_token(' '),
        xsb_token('_') == xsb_token(' '),
{
}

} // verus!
