//! Moves of the player and sequences of them (solutions).
use vstd::prelude::*;

use crate::data::Dir;
use crate::text::push_char;

verus! {

/// One move of the player; a push when it moves a box.
#[derive(Clone, Copy, Debug, PartialEq, Eq, Hash, Structural)]
pub struct Move {
    pub dir: Dir,
    pub is_push: bool,
}

impl Move {
    pub fn new(dir: Dir, is_push: bool) -> (m: Move)
        ensures
            m.dir == dir,
            m.is_push == is_push,
    {
        Move { dir, is_push }
    }

    /// The letter of the move: lower case for a step, upper case for a push.
    pub open spec fn spec_char(self) -> char {
        match (self.dir, self.is_push) {
            (Dir::Up, false) => 'u',
            (Dir::Right, false) => 'r',
            (Dir::Down, false) => 'd',
            (Dir::Left, false) => 'l',
            (Dir::Up, true) => 'U',
            (Dir::Right, true) => 'R',
            (Dir::Down, true) => 'D',
            (Dir::Left, true) => 'L',
        }
    }

    pub fn to_char(self) -> (c: char)
        ensures
            c == self.spec_char(),
    {
        match (self.dir, self.is_push) {
            (Dir::Up, false) => 'u',
            (Dir::Right, false) => 'r',
            (Dir::Down, false) => 'd',
            (Dir::Left, false) => 'l',
            (Dir::Up, true) => 'U',
            (Dir::Right, true) => 'R',
            (Dir::Down, true) => 'D',
            (Dir::Left, true) => 'L',
        }
    }
}

/// The number of pushes among `moves`.
pub open spec fn push_count(moves: Seq<Move>) -> nat
    decreases moves.len(),
{
    if moves.len() == 0 {
        0
    } else {
        push_count(moves.drop_last()) + (if moves.last().is_push {
            1nat
        } else {
            0nat
        })
    }
}

/// The solution string: one letter per move.
pub open spec fn moves_text(moves: Seq<Move>) -> Seq<char> {
    moves.map_values(|m: Move| m.spec_char())
}

/// The number of pushes of a concatenation is the sum of the numbers of pushes.
pub proof fn lemma_push_count_concat(a: Seq<Move>, b: Seq<Move>)
    ensures
        push_count(a + b) == push_count(a) + push_count(b),
    decreases b.len(),
{
    if b.len() == 0 {
        assert(a + b =~= a);
    } else {
        lemma_push_count_concat(a, b.drop_last());
        assert((a + b).drop_last() =~= a + b.drop_last());
    }
}

/// A sequence never has more pushes than moves.
pub proof fn lemma_push_count_le_len(a: Seq<Move>)
    ensures
        push_count(a) <= a.len(),
    decreases a.len(),
{
    if a.len() > 0 {
        lemma_push_count_le_len(a.drop_last());
    }
}

/// A sequence of moves.
#[derive(Clone, Debug, PartialEq, Eq, Hash)]
pub struct Moves(pub Vec<Move>);

impl View for Moves {
    type V = Seq<Move>;

    open spec fn view(&self) -> Seq<Move> {
        self.0@
    }
}

impl Default for Moves {
    fn default() -> (m: Moves)
        ensures
            m@ == Seq::<Move>::empty(),
    {
        Moves(Vec::new())
    }
}

impl Moves {
    pub fn new(moves: Vec<Move>) -> (m: Moves)
        ensures
            m@ == moves@,
    {
        Moves(moves)
    }

    /// The number of moves.
    pub fn move_cnt(&self) -> (n: usize)
        ensures
            n == self@.len(),
    {
        self.0.len()
    }

    /// The number of pushes.
    pub fn push_cnt(&self) -> (n: usize)
        ensures
            n == push_count(self@),
            n <= self@.len(),
    {
        let mut n: usize = 0;
        let mut i: usize = 0;
        while i < self.0.len()
            invariant
                i <= self@.len(),
                n == push_count(self@.subrange(0, i as int)),
                n <= i,
            decreases self@.len() - i,
        {
            proof {
                assert(self@.subrange(0, i as int + 1).drop_last() =~= self@.subrange(0, i as int));
            }
            if self.0[i].is_push {
                n = n + 1;
            }
            i = i + 1;
        }
        proof {
            assert(self@.subrange(0, i as int) =~= self@);
        }
        n
    }

    /// Appends one move.
    pub fn add(&mut self, mov: Move)
        ensures
            final(self)@ == old(self)@.push(mov),
    {
        self.0.push(mov);
    }

    /// Appends all moves of `moves`.
    pub fn extend(&mut self, moves: &Moves)
        ensures
            final(self)@ == old(self)@ + moves@,
            final(self)@.len() == old(self)@.len() + moves@.len(),
            push_count(final(self)@) == push_count(old(self)@) + push_count(moves@),
    {
        let mut i: usize = 0;
        while i < moves.0.len()
            invariant
                i <= moves@.len(),
                self@ == old(self)@ + moves@.subrange(0, i as int),
            decreases moves@.len() - i,
        {
            self.0.push(moves.0[i]);
            proof {
                assert(moves@.subrange(0, i as int + 1) =~= moves@.subrange(0, i as int).push(
                    moves@[i as int],
                ));
            }
            i = i + 1;
        }
        proof {
            assert(moves@.subrange(0, i as int) =~= moves@);
            lemma_push_count_concat(old(self)@, moves@);
        }
    }

    /// The moves as a slice.
    pub fn as_slice(&self) -> (s: &[Move])
        ensures
            s@ == self@,
    {
        self.0.as_slice()
    }

    /// The moves as a vector.
    pub fn into_vec(self) -> (v: Vec<Move>)
        ensures
            v@ == self@,
    {
        self.0
    }

    /// The solution string: `u`, `r`, `d`, `l` for steps and `U`, `R`, `D`, `L` for pushes.
    pub fn to_string(&self) -> (s: String)
        ensures
            s@ == moves_text(self@),
    {
        let mut s = String::new();
        let mut i: usize = 0;
        while i < self.0.len()
            invariant
                i <= self@.len(),
                s@ == moves_text(self@.subrange(0, i as int)),
            decreases self@.len() - i,
        {
            push_char(&mut s, self.0[i].to_char());
            proof {
                assert(moves_text(self@.subrange(0, i as int + 1)) =~= moves_text(
                    self@.subrange(0, i as int),
                ).push(self@[i as int].spec_char()));
            }
            i = i + 1;
        }
        proof {
            assert(self@.subrange(0, i as int) =~= self@);
        }
        s
    }
}

} // verus!
