use crate::torus::{flat, lemma_flat, wrap, wrap_coord};
use vstd::prelude::*;

verus! {

/// A grid of `width` columns and `height` rows, stored row by row, that can be indexed
/// with wrapping signed coordinates or plainly with unsigned ones.
#[derive(Clone)]
pub struct ModularGrid<T> {
    pub width: usize,
    pub height: usize,
    pub grid: Vec<T>,
}

impl<T> ModularGrid<T> {
    /// The number of columns.
    pub open spec fn columns(&self) -> nat {
        self.width as nat
    }

    /// The number of rows.
    pub open spec fn rows(&self) -> nat {
        self.height as nat
    }

    /// Whether the stored cells are as many as the grid has sites.
    pub open spec fn well_formed(&self) -> bool {
        self.grid@.len() == self.columns() * self.rows()
    }

    /// The flat position of the cell that `index` wraps around to.
    pub open spec fn wrapped_position(&self, index: (isize, isize)) -> int {
        flat(
            wrap(index.0 as int, self.columns() as int),
            wrap(index.1 as int, self.rows() as int),
            self.columns() as int,
        )
    }

    /// A grid with the default value in every cell.
    pub fn new(width: usize, height: usize) -> (r: Self) where T: Default + Clone
        requires
            width * height <= usize::MAX,
        ensures
            r.well_formed(),
            r.columns() == width,
            r.rows() == height,
            forall|s: int|
                0 <= s < r.grid@.len() ==> call_ensures(T::default, (), #[trigger] r.grid@[s]),
    {
        let n: usize = width * height;
        let mut grid: Vec<T> = Vec::new();
        let mut i: usize = 0;
        while i < n
            invariant
                i <= n,
                grid@.len() == i,
                forall|s: int| 0 <= s < i ==> call_ensures(T::default, (), #[trigger] grid@[s]),
            decreases n - i,
        {
            grid.push(T::default());
            i = i + 1;
        }
        Self { width, height, grid }
    }

    /// The cells `grid`, read as `height` rows of `width` cells each.
    pub fn modularize(width: usize, height: usize, grid: Vec<T>) -> (r: Self)
        requires
            grid@.len() == width * height,
        ensures
            r.well_formed(),
            r.columns() == width,
            r.rows() == height,
            r.grid == grid,
    {
        Self { width, height, grid }
    }

    /// The flat position of the cell that `index` wraps around to.
    fn offset(&self, index: (isize, isize)) -> (r: usize)
        requires
            self.well_formed(),
            self.grid@.len() > 0,
        ensures
            r == self.wrapped_position(index),
            r < self.grid@.len(),
    {
        proof {
            let w = self.width as int;
            let h = self.height as int;
            assert(w >= 1 && h >= 1 && w <= w * h && h <= w * h) by (nonlinear_arith)
                requires
                    w >= 0,
                    h >= 0,
                    w * h > 0,
            ;
        }
        let x: usize = wrap_coord(index.0, self.width);
        let y: usize = wrap_coord(index.1, self.height);
        let cells: usize = self.grid.len();
        proof {
            lemma_flat(x as int, y as int, self.width as int, self.height as int);
            assert(y * self.width >= 0) by (nonlinear_arith)
                requires
                    y >= 0,
                    self.width >= 0,
            ;
        }
        y * self.width + x
    }

    /// The cell that the signed `index` wraps around to.
    pub fn get(&self, index: (isize, isize)) -> (r: &T)
        requires
            self.well_formed(),
            self.grid@.len() > 0,
        ensures
            *r == self.grid@[self.wrapped_position(index)],
    {
        let at: usize = self.offset(index);
        &self.grid[at]
    }

    /// Puts `val` into the cell that the signed `index` wraps around to.
    pub fn set(&mut self, index: (isize, isize), val: T)
        requires
            old(self).well_formed(),
            old(self).grid@.len() > 0,
        ensures
            final(self).well_formed(),
            final(self).columns() == old(self).columns(),
            final(self).rows() == old(self).rows(),
            final(self).grid@ == old(self).grid@.update(old(self).wrapped_position(index), val),
    {
        let at: usize = self.offset(index);
        self.grid.set(at, val);
    }

    /// The cell in column `index.0` of row `index.1`, without wrapping.
    pub fn get_at(&self, index: (usize, usize)) -> (r: &T)
        requires
            flat(index.0 as int, index.1 as int, self.columns() as int) < self.grid@.len(),
        ensures
            *r == self.grid@[flat(index.0 as int, index.1 as int, self.columns() as int)],
    {
        assert(index.1 * self.width >= 0) by (nonlinear_arith)
            requires
                index.1 >= 0,
                self.width >= 0,
        ;
        let cells: usize = self.grid.len();
        &self.grid[index.1 * self.width + index.0]
    }

    /// Puts `val` into column `index.0` of row `index.1`, without wrapping.
    pub fn set_at(&mut self, index: (usize, usize), val: T)
        requires
            flat(index.0 as int, index.1 as int, old(self).columns() as int) < old(self).grid@.len(),
        ensures
            final(self).columns() == old(self).columns(),
            final(self).rows() == old(self).rows(),
            final(self).grid@ == old(self).grid@.update(
                flat(index.0 as int, index.1 as int, old(self).columns() as int),
                val,
            ),
    {
        assert(index.1 * self.width >= 0) by (nonlinear_arith)
            requires
                index.1 >= 0,
                self.width >= 0,
        ;
        let cells: usize = self.grid.len();
        let at: usize = index.1 * self.width + index.0;
        self.grid.set(at, val);
    }
}

} // verus!
