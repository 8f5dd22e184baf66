//! Basic game elements: map cells, cell contents, positions and directions.
use vstd::prelude::*;

verus! {

/// The largest number of rows or columns of a level.
pub const MAX_SIZE: usize = 255;

/// The largest number of boxes the solver accepts.
pub const MAX_BOXES: usize = 255;

/// The static part of one cell of the map.
#[derive(Clone, Copy, Debug, PartialEq, Eq, Structural)]
pub enum MapCell {
    Empty,
    Wall,
    Goal,
    Remover,
}

impl Default for MapCell {
    fn default() -> (r: Self)
        ensures
            r == MapCell::Empty,
    {
        MapCell::Empty
    }
}

impl MapCell {
    /// The character used when a grid of cells is printed.
    pub open spec fn spec_char(self) -> char {
        match self {
            MapCell::Empty => ' ',
            MapCell::Wall => '#',
            MapCell::Goal => '.',
            MapCell::Remover => 'r',
        }
    }

    pub fn to_char(self) -> (c: char)
        ensures
            c == self.spec_char(),
    {
        match self {
            MapCell::Empty => ' ',
            MapCell::Wall => '#',
            MapCell::Goal => '.',
            MapCell::Remover => 'r',
        }
    }
}

/// The dynamic part of one cell: what stands on it.
#[derive(Clone, Copy, Debug, PartialEq, Eq, Structural)]
pub enum Contents {
    Empty,
    Box,
    Player,
}

impl Default for Contents {
    fn default() -> (r: Self)
        ensures
            r == Contents::Empty,
    {
        Contents::Empty
    }
}

/// A direction of movement.
#[derive(Clone, Copy, Debug, PartialEq, Eq, Hash, Structural)]
pub enum Dir {
    Up,
    Right,
    Down,
    Left,
}

/// The four directions in the order in which the solver tries them.
pub open spec fn spec_dir(i: int) -> Dir {
    if i == 0 {
        Dir::Up
    } else if i == 1 {
        Dir::Right
    } else if i == 2 {
        Dir::Down
    } else {
        Dir::Left
    }
}

/// The `i`-th direction of the order up, right, down, left.
pub fn dir_from_index(i: usize) -> (d: Dir)
    requires
        i < 4,
    ensures
        d == spec_dir(i as int),
        d.spec_index() == i,
{
    if i == 0 {
        Dir::Up
    } else if i == 1 {
        Dir::Right
    } else if i == 2 {
        Dir::Down
    } else {
        Dir::Left
    }
}

impl Dir {
    pub open spec fn spec_inverse(self) -> Dir {
        match self {
            Dir::Up => Dir::Down,
            Dir::Right => Dir::Left,
            Dir::Down => Dir::Up,
            Dir::Left => Dir::Right,
        }
    }

    pub open spec fn spec_index(self) -> usize {
        match self {
            Dir::Up => 0,
            Dir::Right => 1,
            Dir::Down => 2,
            Dir::Left => 3,
        }
    }

    /// Row offset of one step in this direction.
    pub open spec fn dr(self) -> int {
        match self {
            Dir::Up => -1,
            Dir::Down => 1,
            _ => 0,
        }
    }

    /// Column offset of one step in this direction.
    pub open spec fn dc(self) -> int {
        match self {
            Dir::Left => -1,
            Dir::Right => 1,
            _ => 0,
        }
    }

    /// The lower case letter of this direction in a solution string.
    pub open spec fn spec_char(self) -> char {
        match self {
            Dir::Up => 'u',
            Dir::Right => 'r',
            Dir::Down => 'd',
            Dir::Left => 'l',
        }
    }

    pub fn inverse(self) -> (d: Dir)
        ensures
            d == self.spec_inverse(),
    {
        match self {
            Dir::Up => Dir::Down,
            Dir::Right => Dir::Left,
            Dir::Down => Dir::Up,
            Dir::Left => Dir::Right,
        }
    }

    /// Position of this direction in the order up, right, down, left.
    pub fn index(self) -> (i: usize)
        ensures
            i == self.spec_index(),
            i < 4,
            spec_dir(i as int) == self,
    {
        match self {
            Dir::Up => 0,
            Dir::Right => 1,
            Dir::Down => 2,
            Dir::Left => 3,
        }
    }

    pub fn to_char(self) -> (c: char)
        ensures
            c == self.spec_char(),
    {
        match self {
            Dir::Up => 'u',
            Dir::Right => 'r',
            Dir::Down => 'd',
            Dir::Left => 'l',
        }
    }
}

/// A position on the map: row and column.
#[derive(Clone, Copy, Debug, PartialEq, Eq, PartialOrd, Ord, Hash, Structural)]
pub struct Pos {
    pub r: u8,
    pub c: u8,
}

impl Pos {
    pub fn new(r: u8, c: u8) -> (p: Pos)
        ensures
            p.r == r,
            p.c == c,
    {
        Pos { r, c }
    }

    /// Positions are ordered by row first, then by column.
    pub open spec fn spec_lt(self, other: Pos) -> bool {
        self.r < other.r || (self.r == other.r && self.c < other.c)
    }

    pub open spec fn spec_le(self, other: Pos) -> bool {
        self.spec_lt(other) || self == other
    }

    /// A position that has all four neighbors inside the range of `u8`.
    pub open spec fn is_inner(self) -> bool {
        1 <= self.r < 255 && 1 <= self.c < 255
    }

    /// The position one step away in direction `d` (only meaningful for inner positions).
    pub open spec fn step(self, d: Dir) -> Pos {
        Pos { r: (self.r + d.dr()) as u8, c: (self.c + d.dc()) as u8 }
    }

    /// Two positions are adjacent when they differ by one step in one direction.
    pub open spec fn adjacent(self, other: Pos) -> bool {
        exists|d: Dir| #[trigger] self.step(d) == other && self.r + d.dr() == other.r && self.c
            + d.dc() == other.c
    }

    /// Manhattan distance.
    pub open spec fn spec_dist(self, other: Pos) -> int {
        (if self.r >= other.r {
            self.r - other.r
        } else {
            other.r - self.r
        }) + (if self.c >= other.c {
            self.c - other.c
        } else {
            other.c - self.c
        })
    }

    pub fn less_than(&self, other: &Pos) -> (b: bool)
        ensures
            b == self.spec_lt(*other),
    {
        self.r < other.r || (self.r == other.r && self.c < other.c)
    }

    /// Manhattan distance.
    pub fn dist(self, other: Pos) -> (d: u16)
        ensures
            d == self.spec_dist(other),
    {
        let dr: u16 = if self.r >= other.r {
            (self.r - other.r) as u16
        } else {
            (other.r - self.r) as u16
        };
        let dc: u16 = if self.c >= other.c {
            (self.c - other.c) as u16
        } else {
            (other.c - self.c) as u16
        };
        dr + dc
    }

    /// The position one step away in direction `dir`.
    pub fn add_dir(self, dir: Dir) -> (p: Pos)
        requires
            self.is_inner(),
        ensures
            p == self.step(dir),
            p.r == self.r + dir.dr(),
            p.c == self.c + dir.dc(),
    {
        match dir {
            Dir::Up => Pos { r: self.r - 1, c: self.c },
            Dir::Right => Pos { r: self.r, c: self.c + 1 },
            Dir::Down => Pos { r: self.r + 1, c: self.c },
            Dir::Left => Pos { r: self.r, c: self.c - 1 },
        }
    }

    /// The position one step away against direction `dir`.
    pub fn sub_dir(self, dir: Dir) -> (p: Pos)
        requires
            self.is_inner(),
        ensures
            p == self.step(dir.spec_inverse()),
            p.r == self.r - dir.dr(),
            p.c == self.c - dir.dc(),
    {
        self.add_dir(dir.inverse())
    }

    /// The four neighbors in the order up, right, down, left.
    pub fn neighbors(self) -> (n: [Pos; 4])
        requires
            self.is_inner(),
        ensures
            forall|i: int| 0 <= i < 4 ==> #[trigger] n[i] == self.step(spec_dir(i)),
    {
        [
            Pos { r: self.r - 1, c: self.c },
            Pos { r: self.r, c: self.c + 1 },
            Pos { r: self.r + 1, c: self.c },
            Pos { r: self.r, c: self.c - 1 },
        ]
    }

    /// The direction of the step from `self` to the adjacent `new_pos`.
    pub fn dir_to(self, new_pos: Pos) -> (d: Dir)
        requires
            self.is_inner(),
            self.adjacent(new_pos),
        ensures
            self.step(d) == new_pos,
            new_pos.r == self.r + d.dr(),
            new_pos.c == self.c + d.dc(),
    {
        if self.r - 1 == new_pos.r && self.c == new_pos.c {
            Dir::Up
        } else if self.c + 1 == new_pos.c && self.r == new_pos.r {
            Dir::Right
        } else if self.r + 1 == new_pos.r && self.c == new_pos.c {
            Dir::Down
        } else {
            Dir::Left
        }
    }
}

/// One step and one step back lead to the starting position.
pub proof fn lemma_step_inverse(p: Pos, d: Dir)
    requires
        p.is_inner(),
    ensures
        p.step(d).step(d.spec_inverse()) == p,
{
}

/// Inverting a direction twice gives the direction back.
pub proof fn lemma_inverse_involution(d: Dir)
    ensures
        d.spec_inverse().spec_inverse() == d,
{
}

} // verus!
