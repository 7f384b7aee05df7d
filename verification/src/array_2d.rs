use crate::atoms::RandAtom;
use crate::energy::{forward_around, lemma_total_by_site};
use crate::frame::{leading_bytes, Frame, GifFrame};
use crate::lattice::{Lattice, Storage};
use crate::pairs::{counted, record_pair, tidy, weighted, PairCounts};
use crate::product::grid_pairs;
use crate::rng::{draw_below, MyRng};
use crate::sums::sum;
use crate::torus::{
    flat, lemma_flat, lemma_unflat, lemma_wrap_range, lemma_wrap_shift, lemma_wrap_step, wrap,
    wrap_coord,
};
use vstd::prelude::*;

verus! {

/// A 2D grid of `W` columns and `H` rows whose indices wrap around.
#[derive(Clone)]
pub struct Array2d<T, const W: usize, const H: usize> {
    grid: Vec<T>,
}

impl<T, const W: usize, const H: usize> View for Array2d<T, W, H> {
    type V = Seq<T>;

    /// The occupants, row by row.
    closed spec fn view(&self) -> Seq<T> {
        self.grid@
    }
}

impl<T: Copy, const W: usize, const H: usize> Array2d<T, W, H> {
    /// Whether the grid has at least one site, and few enough that the neighbours of all
    /// sites together can be counted in a `u32`.
    pub open spec fn dims_ok() -> bool {
        W >= 1 && H >= 1 && 4 * W * H <= u32::MAX
    }

    /// The flat position of the site that `idx` wraps around to.
    pub open spec fn position(idx: (isize, isize)) -> int {
        flat(wrap(idx.0 as int, W as int), wrap(idx.1 as int, H as int), W as int)
    }

    /// Each axis is no longer than the grid has sites, and those fit every index type.
    pub proof fn lemma_dims()
        requires
            Self::dims_ok(),
        ensures
            1 <= W <= W * H <= 0x3fff_ffff,
            1 <= H <= W * H,
    {
        assert(W <= W * H && H <= W * H && 4 * (W * H) == 4 * W * H) by (nonlinear_arith)
            requires
                W >= 1,
                H >= 1,
        ;
    }

    /// Every index wraps around to a site of the grid, whose column and row are the wrapped
    /// coordinates.
    pub proof fn lemma_position(idx: (isize, isize))
        requires
            Self::dims_ok(),
        ensures
            0 <= Self::position(idx) < W * H,
            Self::position(idx) % (W as int) == wrap(idx.0 as int, W as int),
            Self::position(idx) / (W as int) == wrap(idx.1 as int, H as int),
    {
        lemma_wrap_range(idx.0 as int, W as int);
        lemma_wrap_range(idx.1 as int, H as int);
        lemma_flat(wrap(idx.0 as int, W as int), wrap(idx.1 as int, H as int), W as int, H as int);
    }

    /// A grid with the default occupant at every site.
    pub fn new() -> (r: Self) where T: Default + Clone
        requires
            Self::dims_ok(),
        ensures
            r@.len() == W * H,
            call_ensures(T::default, (), r@[0]),
            forall|s: int| 0 <= s < r@.len() ==> #[trigger] r@[s] == r@[0],
    {
        proof {
            Self::lemma_dims();
        }
        Self::filled(T::default())
    }

    /// A grid with `val` at every site.
    fn filled(val: T) -> (r: Self)
        requires
            Self::dims_ok(),
        ensures
            r@ == Seq::new((W * H) as nat, |s: int| val),
    {
        proof {
            Self::lemma_dims();
        }
        let n: usize = W * H;
        let mut grid: Vec<T> = Vec::new();
        let mut i: usize = 0;
        while i < n
            invariant
                i <= n,
                grid@ == Seq::new(i as nat, |s: int| val),
            decreases n - i,
        {
            grid.push(val);
            i = i + 1;
            assert(grid@ =~= Seq::new(i as nat, |s: int| val));
        }
        Self { grid }
    }

    /// A grid whose every site holds what `func` returns for the index of that site. The
    /// function is asked for the indices within the grid only.
    pub fn fill_with_fn<F: Fn((isize, isize)) -> T>(func: F) -> (r: Self)
        requires
            Self::dims_ok(),
            forall|idx: (isize, isize)|
                0 <= idx.0 < W && 0 <= idx.1 < H ==> func.requires((idx,)),
        ensures
            r@.len() == W * H,
            forall|s: int|
                0 <= s < W * H ==> func.ensures(
                    (((s % (W as int)) as isize, (s / (W as int)) as isize),),
                    #[trigger] r@[s],
                ),
    {
        proof {
            Self::lemma_dims();
        }
        let n: usize = W * H;
        let mut grid: Vec<T> = Vec::new();
        let mut y: usize = 0;
        while y < H
            invariant
                Self::dims_ok(),
                y <= H,
                grid@.len() == y * W,
                forall|idx: (isize, isize)|
                    0 <= idx.0 < W && 0 <= idx.1 < H ==> func.requires((idx,)),
                forall|s: int|
                    0 <= s < grid@.len() ==> func.ensures(
                        (((s % (W as int)) as isize, (s / (W as int)) as isize),),
                        #[trigger] grid@[s],
                    ),
            decreases H - y,
        {
            let mut x: usize = 0;
            while x < W
                invariant
                    Self::dims_ok(),
                    y < H,
                    x <= W,
                    grid@.len() == y * W + x,
                    forall|idx: (isize, isize)|
                    0 <= idx.0 < W && 0 <= idx.1 < H ==> func.requires((idx,)),
                    forall|s: int|
                        0 <= s < grid@.len() ==> func.ensures(
                            (((s % (W as int)) as isize, (s / (W as int)) as isize),),
                            #[trigger] grid@[s],
                        ),
                decreases W - x,
            {
                proof {
                    Self::lemma_dims();
                    lemma_flat(x as int, y as int, W as int, H as int);
                }
                let val: T = func((x as isize, y as isize));
                grid.push(val);
                x = x + 1;
            }
            y = y + 1;
            assert((y - 1) * W + W == y * W) by (nonlinear_arith);
        }
        assert(H * W == W * H) by (nonlinear_arith);
        Self { grid }
    }


    /// The flat position of the site that `idx` wraps around to.
    fn offset(idx: (isize, isize)) -> (r: usize)
        requires
            Self::dims_ok(),
        ensures
            r == Self::position(idx),
            r < W * H,
    {
        proof {
            Self::lemma_dims();
        }
        let x: usize = wrap_coord(idx.0, W);
        let y: usize = wrap_coord(idx.1, H);
        proof {
            lemma_flat(x as int, y as int, W as int, H as int);
        }
        y * W + x
    }
}

impl<T: Copy + RandAtom, const W: usize, const H: usize> Storage for Array2d<T, W, H> {
    type Atom = T;

    type Index = (isize, isize);

    open spec fn shape_ok() -> bool {
        Self::dims_ok()
    }

    open spec fn sites() -> nat {
        (W * H) as nat
    }

    open spec fn degree() -> nat {
        4
    }

    open spec fn slot(idx: (isize, isize)) -> int {
        Self::position(idx)
    }

    open spec fn index_at(slot: int) -> (isize, isize) {
        ((slot % (W as int)) as isize, (slot / (W as int)) as isize)
    }

    open spec fn steppable(idx: (isize, isize)) -> bool {
        isize::MIN < idx.0 < isize::MAX && isize::MIN < idx.1 < isize::MAX
    }

    open spec fn neighbors(idx: (isize, isize)) -> Seq<(isize, isize)> {
        seq![
            ((idx.0 + 1) as isize, idx.1),
            ((idx.0 - 1) as isize, idx.1),
            (idx.0, (idx.1 + 1) as isize),
            (idx.0, (idx.1 - 1) as isize),
        ]
    }

    open spec fn hop(k: int, slot: int) -> int {
        let x = slot % (W as int);
        let y = slot / (W as int);
        if k == 0 {
            flat(wrap(x + 1, W as int), y, W as int)
        } else if k == 1 {
            flat(wrap(x - 1, W as int), y, W as int)
        } else if k == 2 {
            flat(x, wrap(y + 1, H as int), W as int)
        } else {
            flat(x, wrap(y - 1, H as int), W as int)
        }
    }

    open spec fn reverse(k: int) -> int {
        if k == 0 {
            1
        } else if k == 1 {
            0
        } else if k == 2 {
            3
        } else {
            2
        }
    }

    open spec fn forward(k: int) -> bool {
        k == 1 || k == 3
    }

    open spec fn well_formed(&self) -> bool {
        Self::dims_ok() && self@.len() == W * H
    }

    open spec fn cells(&self) -> Seq<T> {
        self@
    }

    proof fn lemma_shape() {
        Self::lemma_dims();
        assert((W * H) * 4 == 4 * W * H) by (nonlinear_arith);
    }

    proof fn lemma_well_formed(&self) {
    }

    proof fn lemma_slot(idx: (isize, isize)) {
        Self::lemma_position(idx);
    }

    proof fn lemma_index_at(slot: int) {
        Self::lemma_dims();
        lemma_unflat(slot, W as int, H as int);
        let idx = Self::index_at(slot);
        lemma_wrap_range(idx.0 as int, W as int);
        lemma_wrap_range(idx.1 as int, H as int);
    }

    proof fn lemma_neighbors(idx: (isize, isize), k: int) {
        Self::lemma_dims();
        Self::lemma_position(idx);
        let n = Self::neighbors(idx)[k];
        Self::lemma_position(n);
        lemma_wrap_shift(idx.0 as int, 1, W as int);
        lemma_wrap_shift(idx.0 as int, -1, W as int);
        lemma_wrap_shift(idx.1 as int, 1, H as int);
        lemma_wrap_shift(idx.1 as int, -1, H as int);
    }

    proof fn lemma_hop(k: int, slot: int) {
        Self::lemma_dims();
        lemma_unflat(slot, W as int, H as int);
        let x = slot % (W as int);
        let y = slot / (W as int);
        lemma_wrap_range(x + 1, W as int);
        lemma_wrap_range(x - 1, W as int);
        lemma_wrap_range(y + 1, H as int);
        lemma_wrap_range(y - 1, H as int);
        lemma_wrap_range(x, W as int);
        lemma_wrap_range(y, H as int);
        lemma_wrap_step(x, W as int);
        lemma_wrap_step(y, H as int);
        if k == 0 {
            lemma_flat(wrap(x + 1, W as int), y, W as int, H as int);
        } else if k == 1 {
            lemma_flat(wrap(x - 1, W as int), y, W as int, H as int);
        } else if k == 2 {
            lemma_flat(x, wrap(y + 1, H as int), W as int, H as int);
        } else {
            lemma_flat(x, wrap(y - 1, H as int), W as int, H as int);
        }
    }

    proof fn lemma_pairs(f: spec_fn(int) -> int) {
        reveal_with_fuel(sum, 5);
    }

    proof fn lemma_loop(k: int, slot: int, other: int) {
        Self::lemma_dims();
        lemma_unflat(slot, W as int, H as int);
        lemma_unflat(other, W as int, H as int);
        let x = slot % (W as int);
        let y = slot / (W as int);
        let ox = other % (W as int);
        let oy = other / (W as int);
        lemma_wrap_range(x, W as int);
        lemma_wrap_range(y, H as int);
        lemma_wrap_range(ox, W as int);
        lemma_wrap_range(oy, H as int);
        lemma_wrap_range(x + 1, W as int);
        lemma_wrap_range(x - 1, W as int);
        lemma_wrap_range(y + 1, H as int);
        lemma_wrap_range(y - 1, H as int);
        lemma_wrap_step(x, W as int);
        lemma_wrap_step(y, H as int);
        lemma_wrap_step(ox, W as int);
        lemma_wrap_step(oy, H as int);
        if k == 0 {
            lemma_flat(wrap(x + 1, W as int), y, W as int, H as int);
        } else if k == 1 {
            lemma_flat(wrap(x - 1, W as int), y, W as int, H as int);
        } else if k == 2 {
            lemma_flat(x, wrap(y + 1, H as int), W as int, H as int);
        } else {
            lemma_flat(x, wrap(y - 1, H as int), W as int, H as int);
        }
    }

    fn fill_value(val: T) -> (r: Self) {
        Self::filled(val)
    }

    fn all_neighbors_to(&self, idx: (isize, isize)) -> (r: Vec<(isize, isize)>) {
        let mut out: Vec<(isize, isize)> = Vec::new();
        out.push((idx.0 + 1, idx.1));
        out.push((idx.0 - 1, idx.1));
        out.push((idx.0, idx.1 + 1));
        out.push((idx.0, idx.1 - 1));
        assert(out@ =~= Self::neighbors(idx));
        out
    }

    fn all_idxs(&self) -> (r: Vec<(isize, isize)>) {
        proof {
            Self::lemma_dims();
            assert(H * W == W * H) by (nonlinear_arith);
        }
        let pairs = grid_pairs(H, W);
        let mut out: Vec<(isize, isize)> = Vec::new();
        let mut s: usize = 0;
        while s < pairs.len()
            invariant
                Self::dims_ok(),
                pairs@.len() == W * H,
                forall|at: int|
                    0 <= at < pairs@.len() ==> #[trigger] pairs@[at] == (
                        (at / (W as int)) as usize,
                        (at % (W as int)) as usize,
                    ),
                0 <= s <= pairs@.len(),
                out@.len() == s,
                forall|t: int| 0 <= t < s ==> out@[t] == Self::index_at(t),
            decreases pairs@.len() - s,
        {
            let pair: (usize, usize) = pairs[s];
            proof {
                Self::lemma_dims();
                lemma_unflat(s as int, W as int, H as int);
            }
            out.push((pair.1 as isize, pair.0 as isize));
            s = s + 1;
        }
        out
    }

    fn tot_sites(&self) -> (r: usize) {
        proof {
            Self::lemma_dims();
        }
        W * H
    }

    fn as_flat_slice(&self) -> (r: &[T]) {
        self.grid.as_slice()
    }

    fn as_flat_slice_mut(&mut self) -> (r: &mut [T]) {
        self.grid.as_mut_slice()
    }

    fn random_idx(&self, rng: &mut MyRng) -> (r: (isize, isize)) {
        proof {
            Self::lemma_dims();
        }
        let x: u64 = draw_below(rng, W as u64);
        let y: u64 = draw_below(rng, H as u64);
        proof {
            lemma_wrap_range(x as int, W as int);
            lemma_wrap_range(y as int, H as int);
            lemma_flat(x as int, y as int, W as int, H as int);
        }
        (x as isize, y as isize)
    }

    fn choose_idxs_uniformly(&self, rng: &mut MyRng) -> (r: ((isize, isize), (isize, isize))) {
        let first = self.random_idx(rng);
        let second = self.random_idx(rng);
        (first, second)
    }

    fn reduce_index(&self, idx: (isize, isize)) -> (r: (isize, isize))
        ensures
            r.0 == wrap(idx.0 as int, W as int),
            r.1 == wrap(idx.1 as int, H as int),
    {
        proof {
            Self::lemma_dims();
            Self::lemma_position(idx);
        }
        let x: usize = wrap_coord(idx.0, W);
        let y: usize = wrap_coord(idx.1, H);
        (x as isize, y as isize)
    }

    fn get(&self, idx: (isize, isize)) -> (r: T) {
        let at: usize = Self::offset(idx);
        self.grid[at]
    }

    fn set(&mut self, idx: (isize, isize), val: T) {
        let at: usize = Self::offset(idx);
        self.grid.set(at, val);
    }

    fn swap_vals(&mut self, idx_1: (isize, isize), idx_2: (isize, isize)) {
        let at_1: usize = Self::offset(idx_1);
        let at_2: usize = Self::offset(idx_2);
        let temp: T = self.grid[at_1];
        let other: T = self.grid[at_2];
        self.grid.set(at_1, other);
        self.grid.set(at_2, temp);
    }
}

impl<T: Copy + RandAtom, const W: usize, const H: usize> Lattice for Array2d<T, W, H> {
    fn all_neighbors(&self) -> (r: PairCounts<T>) {
        let ghost c = self@;
        let mut out: PairCounts<T> = Vec::new();
        let mut y: usize = 0;
        proof {
            Self::lemma_dims();
        }
        while y < H
            invariant
                self.well_formed(),
                c == self@,
                y <= H,
                tidy(out@),
                counted(out@) == 2 * (y * W),
                forall|e: spec_fn(T, T) -> int| #[trigger]
                    weighted(out@, e) == sum(|s: int| forward_around::<Self>(e, c, s), y * W),
            decreases H - y,
        {
            let mut x: usize = 0;
            while x < W
                invariant
                    self.well_formed(),
                    c == self@,
                    y < H,
                    x <= W,
                    tidy(out@),
                    counted(out@) == 2 * (y * W + x),
                    forall|e: spec_fn(T, T) -> int| #[trigger]
                        weighted(out@, e) == sum(
                            |s: int| forward_around::<Self>(e, c, s),
                            y * W + x,
                        ),
                decreases W - x,
            {
                let ghost s = y * W + x;
                let ghost before = out@;
                proof {
                    Self::lemma_dims();
                    lemma_flat(x as int, y as int, W as int, H as int);
                    lemma_wrap_range(x as int, W as int);
                    lemma_wrap_range(y as int, H as int);
                }
                let idx: (isize, isize) = (x as isize, y as isize);
                proof {
                    Self::lemma_neighbors(idx, 1);
                    Self::lemma_neighbors(idx, 3);
                }
                let here: T = self.get(idx);
                let left: T = self.get((idx.0 - 1, idx.1));
                let up: T = self.get((idx.0, idx.1 - 1));
                record_pair(&mut out, here, left);
                record_pair(&mut out, here, up);
                x = x + 1;
                proof {
                    assert forall|e: spec_fn(T, T) -> int| #[trigger]
                        weighted(out@, e) == sum(
                            |s: int| forward_around::<Self>(e, c, s),
                            y * W + x,
                        ) by {
                        reveal_with_fuel(sum, 5);
                        assert(forward_around::<Self>(e, c, s) == e(here, left) + e(here, up));
                        assert(weighted(before, e) == sum(
                            |s: int| forward_around::<Self>(e, c, s),
                            s,
                        ));
                    }
                }
            }
            y = y + 1;
            assert((y - 1) * W + W == y * W) by (nonlinear_arith);
        }
        proof {
            assert(H * W == W * H) by (nonlinear_arith);
            assert forall|e: spec_fn(T, T) -> int| #[trigger]
                weighted(out@, e) == crate::energy::total::<Self>(e, c) by {
                lemma_total_by_site::<Self>(e, c);
            }
        }
        out
    }
}

impl<T: Copy + RandAtom, const W: usize, const H: usize> GifFrame for Array2d<T, W, H> {
    open spec fn frame_width() -> nat {
        W as nat
    }

    open spec fn frame_height() -> nat {
        H as nat
    }

    fn get_frame(&self) -> (r: Frame) {
        proof {
            Self::lemma_dims();
        }
        Frame { width: W as u16, height: H as u16, pixels: leading_bytes(self, W * H) }
    }
}

} // verus!
