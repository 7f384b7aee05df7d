use crate::array_2d::Array2d;
use crate::atoms::RandAtom;
use crate::lattice::{swapped, Storage};
use crate::rng::{draw_bool, MyRng};
use crate::torus::{lemma_flat, wrap};
use vstd::prelude::*;

verus! {

/// A 2D grid of `W` columns and `H` rows, stored as one flat row of cells, whose signed
/// indices wrap around.
#[derive(Clone)]
pub struct ModularArray<T, const W: usize, const H: usize> {
    grid: Array2d<T, W, H>,
}

impl<T, const W: usize, const H: usize> View for ModularArray<T, W, H> {
    type V = Seq<T>;

    /// The occupants, row by row.
    closed spec fn view(&self) -> Seq<T> {
        self.grid@
    }
}

/// The step that two coins select along the diagonals: one cell forward along an axis for
/// heads, one back for tails.
pub fn diagonal_step(first: bool, second: bool) -> (r: (isize, isize))
    ensures
        r.0 == if first { 1int } else { -1int },
        r.1 == if second { 1int } else { -1int },
{
    (if first { 1 } else { -1 }, if second { 1 } else { -1 })
}

/// A step along one of the four diagonals.
pub fn draw_diagonal_step(rng: &mut MyRng) -> (r: (isize, isize))
    ensures
        r.0 == 1 || r.0 == -1,
        r.1 == 1 || r.1 == -1,
{
    let first = draw_bool(rng);
    let second = draw_bool(rng);
    diagonal_step(first, second)
}

impl<T: Copy, const W: usize, const H: usize> ModularArray<T, W, H> {
    /// Whether the grid has at least one site, and few enough that the neighbours of all
    /// sites together can be counted in a `u32`.
    pub open spec fn dims_ok() -> bool {
        Array2d::<T, W, H>::dims_ok()
    }

    /// The flat position of the site that `idx` wraps around to.
    pub open spec fn position(idx: (isize, isize)) -> int {
        Array2d::<T, W, H>::position(idx)
    }

    /// A grid with the default occupant at every site.
    pub fn new() -> (r: Self) where T: Default + Clone
        requires
            Self::dims_ok(),
        ensures
            r@.len() == W * H,
            call_ensures(T::default, (), r@[0]),
            forall|s: int| 0 <= s < r@.len() ==> #[trigger] r@[s] == r@[0],
    {
        Self { grid: Array2d::new() }
    }
}

impl<T: Copy + RandAtom, const W: usize, const H: usize> ModularArray<T, W, H> {
    /// Whether the grid is complete.
    pub open spec fn well_formed(&self) -> bool {
        Self::dims_ok() && self@.len() == W * H
    }

    /// A grid with `val` at every site.
    pub fn fill_value(val: T) -> (r: Self)
        requires
            Self::dims_ok(),
        ensures
            r.well_formed(),
            r@ == Seq::new((W * H) as nat, |s: int| val),
    {
        Self { grid: Array2d::fill_value(val) }
    }

    /// A grid whose every site holds what `func` returns for the index of that site. The
    /// function is asked for the indices within the grid only.
    pub fn fill_with_fn<F: Fn((isize, isize)) -> T>(func: F) -> (r: Self)
        requires
            Self::dims_ok(),
            forall|idx: (isize, isize)|
                0 <= idx.0 < W && 0 <= idx.1 < H ==> func.requires((idx,)),
        ensures
            r.well_formed(),
            forall|s: int|
                0 <= s < W * H ==> func.ensures(
                    (((s % (W as int)) as isize, (s / (W as int)) as isize),),
                    #[trigger] r@[s],
                ),
    {
        Self { grid: Array2d::fill_with_fn(func) }
    }

    /// The occupant of the site that `idx` wraps around to.
    pub fn get(&self, idx: (isize, isize)) -> (r: T)
        requires
            self.well_formed(),
        ensures
            r == self@[Self::position(idx)],
    {
        self.grid.get(idx)
    }

    /// Puts `val` on the site that `idx` wraps around to.
    pub fn set(&mut self, idx: (isize, isize), val: T)
        requires
            old(self).well_formed(),
        ensures
            final(self).well_formed(),
            final(self)@ == old(self)@.update(Self::position(idx), val),
    {
        self.grid.set(idx, val);
    }

    /// The pair that entry `at` of `all_neighbours` holds: for the sites taken column by
    /// column, first the occupant of the site with that of the site before it in its row,
    /// then with that of the site before it in its column.
    pub open spec fn neighbour_pair(&self, at: int) -> (T, T) {
        let site = at / 2;
        let x = site / (H as int);
        let y = site % (H as int);
        let here = self@[Self::position((x as isize, y as isize))];
        if at % 2 == 0 {
            (here, self@[Self::position(((x - 1) as isize, y as isize))])
        } else {
            (here, self@[Self::position((x as isize, (y - 1) as isize))])
        }
    }

    /// For every site, column by column, the pair of its occupant and that of the site
    /// before it in its row, then the pair of its occupant and that of the site before it
    /// in its column.
    pub fn all_neighbours(&self) -> (r: Vec<(T, T)>)
        requires
            self.well_formed(),
        ensures
            r@.len() == 2 * (W * H),
            forall|at: int| 0 <= at < r@.len() ==> #[trigger] r@[at] == self.neighbour_pair(at),
    {
        proof {
            Array2d::<T, W, H>::lemma_dims();
        }
        let mut out: Vec<(T, T)> = Vec::new();
        let mut x: usize = 0;
        while x < W
            invariant
                self.well_formed(),
                x <= W,
                out@.len() == 2 * (x * H),
                forall|at: int|
                    0 <= at < out@.len() ==> #[trigger] out@[at] == self.neighbour_pair(at),
            decreases W - x,
        {
            let mut y: usize = 0;
            while y < H
                invariant
                    self.well_formed(),
                    x < W,
                    y <= H,
                    out@.len() == 2 * (x * H + y),
                    forall|at: int|
                        0 <= at < out@.len() ==> #[trigger] out@[at] == self.neighbour_pair(at),
                decreases H - y,
            {
                proof {
                    Array2d::<T, W, H>::lemma_dims();
                    lemma_flat(y as int, x as int, H as int, W as int);
                }
                let here: T = self.grid.get((x as isize, y as isize));
                let left: T = self.grid.get((x as isize - 1, y as isize));
                let up: T = self.grid.get((x as isize, y as isize - 1));
                out.push((here, left));
                out.push((here, up));
                y = y + 1;
            }
            x = x + 1;
            assert((x - 1) * H + H == x * H) by (nonlinear_arith);
        }
        proof {
            assert(W * H == H * W) by (nonlinear_arith);
        }
        out
    }

    /// The four neighbours of `idx`, not wrapped into the grid.
    pub fn all_neighbours_to(&self, idx: (isize, isize)) -> (r: Vec<(isize, isize)>)
        requires
            isize::MIN < idx.0 < isize::MAX,
            isize::MIN < idx.1 < isize::MAX,
        ensures
            r@ == seq![
                ((idx.0 + 1) as isize, idx.1),
                ((idx.0 - 1) as isize, idx.1),
                (idx.0, (idx.1 + 1) as isize),
                (idx.0, (idx.1 - 1) as isize),
            ],
    {
        self.grid.all_neighbors_to(idx)
    }

    /// The index of a site drawn with equal chance among all sites.
    pub fn random_idx(&self, rng: &mut MyRng) -> (r: (isize, isize))
        requires
            self.well_formed(),
        ensures
            0 <= r.0 < W,
            0 <= r.1 < H,
    {
        let drawn = self.grid.random_idx(rng);
        proof {
            Array2d::<T, W, H>::lemma_dims();
            Array2d::<T, W, H>::lemma_position(drawn);
            crate::torus::lemma_unflat(Self::position(drawn), W as int, H as int);
        }
        drawn
    }

    /// A site drawn with equal chance among all sites, and the index that lies `offset`
    /// from it, not wrapped into the grid.
    pub fn choose_idxs_with_offset(&self, rng: &mut MyRng, offset: (isize, isize)) -> (r: (
        (isize, isize),
        (isize, isize),
    ))
        requires
            self.well_formed(),
            offset.0 + W <= isize::MAX,
            offset.1 + H <= isize::MAX,
        ensures
            0 <= r.0.0 < W,
            0 <= r.0.1 < H,
            r.1.0 == r.0.0 + offset.0,
            r.1.1 == r.0.1 + offset.1,
    {
        let idx_1 = self.random_idx(rng);
        (idx_1, (idx_1.0 + offset.0, idx_1.1 + offset.1))
    }

    /// The index within the grid that stands for the same site as `idx`.
    pub fn reduce_index(&self, idx: (isize, isize)) -> (r: (isize, isize))
        requires
            self.well_formed(),
        ensures
            r.0 == wrap(idx.0 as int, W as int),
            r.1 == wrap(idx.1 as int, H as int),
    {
        self.grid.reduce_index(idx)
    }

    /// Exchanges the occupants of two sites.
    pub fn swap_idxs(&mut self, idx_1: (isize, isize), idx_2: (isize, isize))
        requires
            old(self).well_formed(),
        ensures
            final(self).well_formed(),
            final(self)@ == swapped(old(self)@, Self::position(idx_1), Self::position(idx_2)),
    {
        self.grid.swap_vals(idx_1, idx_2);
    }
}

} // verus!
