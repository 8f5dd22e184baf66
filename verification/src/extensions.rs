//! Making a grid of the same size as another one, filled with one value.
use vstd::prelude::*;

use crate::data::Pos;
use crate::vec2d::{lemma_index_bounds, Vec2d};

verus! {

/// Types that can make a scratch grid of their own size with every cell set to a value.
pub trait Scratch<TOut> {
    type Result;

    fn create_scratchpad(&self, default: TOut) -> Self::Result;
}

impl<T, U: Copy> Scratch<U> for Vec2d<T> {
    type Result = Vec2d<U>;

    /// A grid with the dimensions of this one and `default` in every cell.
    fn create_scratchpad(&self, default: U) -> (g: Vec2d<U>)
        ensures
            g.wf(),
            g.rows == self.rows,
            g.cols == self.cols,
            forall|p: Pos| g.in_bounds(p) ==> #[trigger] g.at(p) == default,
    {
        assert(self.rows as int * self.cols as int <= 255 * 255) by (nonlinear_arith)
            requires
                self.rows <= 255,
                self.cols <= 255,
        ;
        let n: usize = self.rows as usize * self.cols as usize;
        let mut data: Vec<U> = Vec::with_capacity(n);
        let mut i: usize = 0;
        while i < n
            invariant
                i <= n,
                data@.len() == i,
                forall|j: int| 0 <= j < i ==> data@[j] == default,
            decreases n - i,
        {
            data.push(default);
            i = i + 1;
        }
        let g = Vec2d { data, rows: self.rows, cols: self.cols };
        proof {
            assert forall|p: Pos| g.in_bounds(p) implies #[trigger] g.at(p) == default by {
                lemma_index_bounds(p.r as int, p.c as int, g.rows as int, g.cols as int);
            }
        }
        g
    }
}

} // verus!
