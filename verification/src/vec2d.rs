//! A rectangular grid stored row by row in one vector.
use vstd::prelude::*;

use crate::data::{MapCell, Pos};

verus! {

/// A rectangular grid of `rows` x `cols` cells stored row by row.
#[derive(Debug)]
pub struct Vec2d<T> {
    pub data: Vec<T>,
    pub rows: u8,
    pub cols: u8,
}

/// Bounds of the flat index of an in-bounds position.
pub proof fn lemma_index_bounds(r: int, c: int, rows: int, cols: int)
    requires
        0 <= r < rows,
        0 <= c < cols,
    ensures
        0 <= r * cols + c < rows * cols,
        r * cols <= r * cols + c,
{
    assert(r * cols + c < rows * cols) by (nonlinear_arith)
        requires
            0 <= r < rows,
            0 <= c < cols,
    ;
    assert(0 <= r * cols) by (nonlinear_arith)
        requires
            0 <= r,
            0 <= cols,
    ;
}

/// Different in-bounds positions have different flat indices.
pub proof fn lemma_index_injective(r1: int, c1: int, r2: int, c2: int, cols: int)
    requires
        0 <= r1,
        0 <= r2,
        0 <= c1 < cols,
        0 <= c2 < cols,
        r1 * cols + c1 == r2 * cols + c2,
    ensures
        r1 == r2,
        c1 == c2,
{
    if r1 < r2 {
        assert(r1 * cols + cols <= r2 * cols) by (nonlinear_arith)
            requires
                r1 < r2,
                0 <= cols,
        ;
    } else if r2 < r1 {
        assert(r2 * cols + cols <= r1 * cols) by (nonlinear_arith)
            requires
                r2 < r1,
                0 <= cols,
        ;
    }
}

/// The abstract content of a grid: its cells row by row and its dimensions.
pub struct Grid<T> {
    pub cells: Seq<T>,
    pub rows: u8,
    pub cols: u8,
}

impl<T> Grid<T> {
    /// The number of cells matches the dimensions.
    pub open spec fn wf(&self) -> bool {
        self.cells.len() == self.rows as int * self.cols as int
    }

    pub open spec fn in_bounds(&self, p: Pos) -> bool {
        p.r < self.rows && p.c < self.cols
    }

    pub open spec fn idx(&self, p: Pos) -> int {
        p.r as int * self.cols as int + p.c as int
    }

    /// The cell at `p`.
    pub open spec fn at(&self, p: Pos) -> T {
        self.cells[self.idx(p)]
    }
}

impl<T> View for Vec2d<T> {
    type V = Grid<T>;

    open spec fn view(&self) -> Grid<T> {
        Grid { cells: self.data@, rows: self.rows, cols: self.cols }
    }
}

impl<T> Vec2d<T> {
    /// The number of cells matches the dimensions.
    pub open spec fn wf(&self) -> bool {
        self.data@.len() == self.rows as int * self.cols as int
    }

    pub open spec fn in_bounds(&self, p: Pos) -> bool {
        p.r < self.rows && p.c < self.cols
    }

    pub open spec fn idx(&self, p: Pos) -> int {
        p.r as int * self.cols as int + p.c as int
    }

    /// The cell at `p`.
    pub open spec fn at(&self, p: Pos) -> T {
        self.data@[self.idx(p)]
    }

    /// Same dimensions as `other`.
    pub open spec fn same_dims<U>(&self, other: &Vec2d<U>) -> bool {
        self.rows == other.rows && self.cols == other.cols
    }

    pub proof fn lemma_idx(&self, p: Pos)
        requires
            self.wf(),
            self.in_bounds(p),
        ensures
            0 <= self.idx(p) < self.data@.len(),
    {
        lemma_index_bounds(p.r as int, p.c as int, self.rows as int, self.cols as int);
    }

    pub proof fn lemma_idx_inj(&self, p: Pos, q: Pos)
        requires
            self.in_bounds(p),
            self.in_bounds(q),
            p != q,
        ensures
            self.idx(p) != self.idx(q),
    {
        if self.idx(p) == self.idx(q) {
            lemma_index_injective(p.r as int, p.c as int, q.r as int, q.c as int, self.cols as int);
        }
    }

    pub fn rows(&self) -> (r: u8)
        ensures
            r == self.rows,
    {
        self.rows
    }

    pub fn cols(&self) -> (c: u8)
        ensures
            c == self.cols,
    {
        self.cols
    }

    /// The index of `p` in `data`.
    pub fn flat_index(&self, p: Pos) -> (i: usize)
        requires
            self.wf(),
            self.in_bounds(p),
        ensures
            i == self.idx(p),
            i < self.data@.len(),
    {
        proof {
            self.lemma_idx(p);
            lemma_index_bounds(p.r as int, p.c as int, self.rows as int, self.cols as int);
            assert((p.r as int) * (self.cols as int) <= 255 * 255) by (nonlinear_arith)
                requires
                    p.r <= 255,
                    self.cols <= 255,
            ;
        }
        let rc: usize = p.r as usize * self.cols as usize;
        rc + p.c as usize
    }

    /// The cell at `p`.
    pub fn get(&self, p: Pos) -> (v: &T)
        requires
            self.wf(),
            self.in_bounds(p),
        ensures
            *v == self.at(p),
    {
        let i = self.flat_index(p);
        &self.data[i]
    }

    /// Replaces the cell at `p`.
    pub fn set(&mut self, p: Pos, v: T)
        requires
            old(self).wf(),
            old(self).in_bounds(p),
        ensures
            final(self).wf(),
            final(self).same_dims(old(self)),
            final(self).at(p) == v,
            forall|q: Pos|
                #![trigger final(self).at(q)]
                old(self).in_bounds(q) && q != p ==> final(self).at(q) == old(self).at(q),
            final(self).data@ == old(self).data@.update(old(self).idx(p), v),
    {
        let ghost old_self = *self;
        let i = self.flat_index(p);
        self.data.set(i, v);
        proof {
            assert forall|q: Pos|
                #![trigger self.at(q)]
                old_self.in_bounds(q) && q != p implies self.at(q) == old_self.at(q) by {
                old_self.lemma_idx_inj(p, q);
                old_self.lemma_idx(q);
            }
        }
    }

    /// All positions of the grid, row by row.
    pub fn positions(&self) -> (ps: Vec<Pos>)
        requires
            self.wf(),
        ensures
            ps@.len() == self.rows as int * self.cols as int,
            forall|p: Pos| self.in_bounds(p) ==> #[trigger] ps@[self.idx(p)] == p,
            forall|i: int| 0 <= i < ps@.len() ==> self.in_bounds(#[trigger] ps@[i]),
            forall|i: int| 0 <= i < ps@.len() ==> self.idx(#[trigger] ps@[i]) == i,
    {
        let mut ps: Vec<Pos> = Vec::new();
        let mut r: u8 = 0;
        while r < self.rows
            invariant
                r <= self.rows,
                ps@.len() == r as int * self.cols as int,
                forall|p: Pos|
                    self.in_bounds(p) && p.r < r ==> #[trigger] ps@[self.idx(p)] == p,
                forall|i: int| 0 <= i < ps@.len() ==> self.in_bounds(#[trigger] ps@[i]),
                forall|i: int| 0 <= i < ps@.len() ==> self.idx(#[trigger] ps@[i]) == i,
            decreases self.rows - r,
        {
            let mut c: u8 = 0;
            while c < self.cols
                invariant
                    r < self.rows,
                    c <= self.cols,
                    ps@.len() == r as int * self.cols as int + c as int,
                    forall|p: Pos|
                        self.in_bounds(p) && (p.r < r || (p.r == r && p.c < c)) ==> #[trigger] ps@[self.idx(
                            p,
                        )] == p,
                    forall|i: int| 0 <= i < ps@.len() ==> self.in_bounds(#[trigger] ps@[i]),
                    forall|i: int| 0 <= i < ps@.len() ==> self.idx(#[trigger] ps@[i]) == i,
                decreases self.cols - c,
            {
                let ghost old_ps = ps@;
                ps.push(Pos { r, c });
                proof {
                    assert forall|p: Pos|
                        self.in_bounds(p) && (p.r < r || (p.r == r && p.c < c + 1)) implies #[trigger] ps@[self.idx(
                        p,
                    )] == p by {
                        if p.r == r && p.c == c {
                        } else {
                            lemma_index_bounds(p.r as int, p.c as int, r as int + 1, self.cols as int);
                            if p.r < r {
                                lemma_index_bounds(p.r as int, p.c as int, r as int, self.cols as int);
                            }
                            assert(self.idx(p) < old_ps.len());
                        }
                    }
                }
                c = c + 1;
            }
            proof {
                assert((r as int + 1) * self.cols as int == r as int * self.cols as int + self.cols as int) by (nonlinear_arith);
            }
            r = r + 1;
        }
        ps
    }
}

impl<T: Copy> Vec2d<T> {
    /// A copy of the grid.
    pub fn copy(&self) -> (g: Vec2d<T>)
        ensures
            g.data@ == self.data@,
            g.same_dims(self),
    {
        let n = self.data.len();
        let mut data: Vec<T> = Vec::with_capacity(n);
        let mut i: usize = 0;
        while i < n
            invariant
                i <= n,
                n == self.data@.len(),
                data@ == self.data@.subrange(0, i as int),
            decreases n - i,
        {
            data.push(self.data[i]);
            i = i + 1;
        }
        proof {
            assert(data@ =~= self.data@);
        }
        Vec2d { data, rows: self.rows, cols: self.cols }
    }

    /// A grid with the same dimensions where every cell is `default`.
    pub fn scratchpad_with_default<U: Copy>(&self, default: U) -> (g: Vec2d<U>)
        requires
            self.wf(),
        ensures
            g.wf(),
            g.same_dims(self),
            forall|i: int| 0 <= i < g.data@.len() ==> g.data@[i] == default,
            forall|p: Pos| g.in_bounds(p) ==> #[trigger] g.at(p) == default,
    {
        let n = self.data.len();
        let mut data: Vec<U> = Vec::with_capacity(n);
        let mut i: usize = 0;
        while i < n
            invariant
                i <= n,
                data@.len() == i,
                forall|j: int| 0 <= j < i ==> data@[j] == default,
            decreases n - i,
        {
            data.push(default);
            i = i + 1;
        }
        let g = Vec2d { data, rows: self.rows, cols: self.cols };
        proof {
            assert forall|p: Pos| g.in_bounds(p) implies #[trigger] g.at(p) == default by {
                g.lemma_idx(p);
            }
        }
        g
    }

    /// A grid with the same dimensions filled with the default value of `U`.
    pub fn scratchpad<U: Copy + Default>(&self) -> (g: Vec2d<U>)
        requires
            self.wf(),
        ensures
            g.wf(),
            g.same_dims(self),
            exists|d: U|
                call_ensures(U::default, (), d) && forall|p: Pos| g.in_bounds(p) ==> #[trigger] g.at(p)
                    == d,
    {
        let d = U::default();
        self.scratchpad_with_default(d)
    }
}

} // verus!
