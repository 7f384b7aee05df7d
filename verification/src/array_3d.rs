use crate::atoms::RandAtom;
use crate::energy::{forward_around, lemma_total_by_site, total};
use crate::frame::{leading_bytes, Frame, GifFrame};
use crate::lattice::{Lattice, Storage};
use crate::pairs::{counted, record_pair, tidy, weighted, PairCounts};
use crate::product::{grid_pairs, paired_with_range};
use crate::rng::{draw_below, MyRng};
use crate::sums::sum;
use crate::torus::{
    flat, lemma_flat, lemma_unflat, lemma_wrap_range, lemma_wrap_shift, lemma_wrap_step, wrap,
    wrap_coord,
};
use vstd::prelude::*;

verus! {

/// A 3D grid of `W` columns, `H` rows and `D` layers whose indices wrap around.
#[derive(Clone)]
pub struct Array3d<T, const W: usize, const H: usize, const D: usize> {
    grid: Vec<T>,
}

impl<T, const W: usize, const H: usize, const D: usize> View for Array3d<T, W, H, D> {
    type V = Seq<T>;

    /// The occupants, layer by layer and row by row.
    closed spec fn view(&self) -> Seq<T> {
        self.grid@
    }
}

/// The flat position of column `x` in row `y` of layer `z`.
pub open spec fn flat3(x: int, y: int, z: int, w: int, h: int) -> int {
    flat(x, flat(y, z, h), w)
}

impl<T: Copy, const W: usize, const H: usize, const D: usize> Array3d<T, W, H, D> {
    /// Whether the grid has at least one site, and few enough that the neighbours of all
    /// sites together can be counted in a `u32`.
    pub open spec fn dims_ok() -> bool {
        W >= 1 && H >= 1 && D >= 1 && 6 * W * H * D <= u32::MAX
    }

    /// The flat position of the site that `idx` wraps around to.
    pub open spec fn position(idx: (isize, isize, isize)) -> int {
        flat3(
            wrap(idx.0 as int, W as int),
            wrap(idx.1 as int, H as int),
            wrap(idx.2 as int, D as int),
            W as int,
            H as int,
        )
    }

    /// The column of a flat position.
    pub open spec fn col(s: int) -> int {
        s % (W as int)
    }

    /// The row of a flat position.
    pub open spec fn row(s: int) -> int {
        (s / (W as int)) % (H as int)
    }

    /// The layer of a flat position.
    pub open spec fn layer(s: int) -> int {
        (s / (W as int)) / (H as int)
    }

    /// Each axis is no longer than the grid has sites, and those fit every index type.
    pub proof fn lemma_dims()
        requires
            Self::dims_ok(),
        ensures
            1 <= W <= W * H * D <= 0x2aaa_aaaa,
            1 <= H <= W * H * D,
            1 <= D <= W * H * D,
            1 <= W * H <= W * H * D,
            W * H * D == W * (H * D),
            1 <= H * D <= W * H * D,
    {
        assert(W <= W * H * D && H <= W * H * D && D <= W * H * D && 6 * (W * H * D) == 6 * W * H
            * D && W * H <= W * H * D && W * H * D == W * (H * D) && 1 <= W * H && 1 <= H * D && H
            * D <= W * H * D) by (nonlinear_arith)
            requires
                W >= 1,
                H >= 1,
                D >= 1,
        ;
    }

    /// A flat position determines its column, row and layer, and lies within the grid.
    pub proof fn lemma_flat3(x: int, y: int, z: int)
        requires
            Self::dims_ok(),
            0 <= x < W,
            0 <= y < H,
            0 <= z < D,
        ensures
            0 <= flat3(x, y, z, W as int, H as int) < W * H * D,
            Self::col(flat3(x, y, z, W as int, H as int)) == x,
            Self::row(flat3(x, y, z, W as int, H as int)) == y,
            Self::layer(flat3(x, y, z, W as int, H as int)) == z,
    {
        Self::lemma_dims();
        lemma_flat(y, z, H as int, D as int);
        lemma_flat(x, flat(y, z, H as int), W as int, H * D);
    }

    /// A position within the grid splits into a column, a row and a layer of the grid.
    pub proof fn lemma_unflat3(s: int)
        requires
            Self::dims_ok(),
            0 <= s < W * H * D,
        ensures
            0 <= Self::col(s) < W,
            0 <= Self::row(s) < H,
            0 <= Self::layer(s) < D,
            flat3(Self::col(s), Self::row(s), Self::layer(s), W as int, H as int) == s,
    {
        Self::lemma_dims();
        lemma_unflat(s, W as int, H * D);
        lemma_unflat(s / (W as int), H as int, D as int);
    }

    /// Every index wraps around to a site of the grid, whose column and row are the wrapped
    /// coordinates.
    pub proof fn lemma_position(idx: (isize, isize, isize))
        requires
            Self::dims_ok(),
        ensures
            0 <= Self::position(idx) < W * H * D,
            Self::col(Self::position(idx)) == wrap(idx.0 as int, W as int),
            Self::row(Self::position(idx)) == wrap(idx.1 as int, H as int),
            Self::layer(Self::position(idx)) == wrap(idx.2 as int, D as int),
    {
        lemma_wrap_range(idx.0 as int, W as int);
        lemma_wrap_range(idx.1 as int, H as int);
        lemma_wrap_range(idx.2 as int, D as int);
        Self::lemma_flat3(
            wrap(idx.0 as int, W as int),
            wrap(idx.1 as int, H as int),
            wrap(idx.2 as int, D as int),
        );
    }

    /// A grid with the default occupant at every site.
    pub fn new() -> (r: Self) where T: Default + Clone
        requires
            Self::dims_ok(),
        ensures
            r@.len() == W * H * D,
            call_ensures(T::default, (), r@[0]),
            forall|s: int| 0 <= s < r@.len() ==> #[trigger] r@[s] == r@[0],
    {
        proof {
            Self::lemma_dims();
        }
        Self::filled(T::default())
    }

    /// A grid with `val` at every site.
    fn filled(val: T) -> (r: Self)
        requires
            Self::dims_ok(),
        ensures
            r@ == Seq::new((W * H * D) as nat, |s: int| val),
    {
        proof {
            Self::lemma_dims();
        }
        let n: usize = W * H * D;
        let mut grid: Vec<T> = Vec::new();
        let mut i: usize = 0;
        while i < n
            invariant
                i <= n,
                grid@ == Seq::new(i as nat, |s: int| val),
            decreases n - i,
        {
            grid.push(val);
            i = i + 1;
            assert(grid@ =~= Seq::new(i as nat, |s: int| val));
        }
        Self { grid }
    }

    /// The index within the grid of a flat position.
    pub open spec fn index_of(s: int) -> (isize, isize, isize) {
        (Self::col(s) as isize, Self::row(s) as isize, Self::layer(s) as isize)
    }

    /// A grid whose every site holds what `func` returns for the index of that site. The
    /// function is asked for the indices within the grid only.
    pub fn fill_with_fn<F: Fn((isize, isize, isize)) -> T>(func: F) -> (r: Self)
        requires
            Self::dims_ok(),
            forall|idx: (isize, isize, isize)|
                0 <= idx.0 < W && 0 <= idx.1 < H && 0 <= idx.2 < D ==> func.requires((idx,)),
        ensures
            r@.len() == W * H * D,
            forall|s: int|
                0 <= s < W * H * D ==> func.ensures((Self::index_of(s),), #[trigger] r@[s]),
    {
        proof {
            Self::lemma_dims();
        }
        let n: usize = W * H * D;
        let mut grid: Vec<T> = Vec::new();
        let mut s: usize = 0;
        while s < n
            invariant
                Self::dims_ok(),
                n == W * H * D,
                s <= n,
                grid@.len() == s,
                forall|idx: (isize, isize, isize)|
                0 <= idx.0 < W && 0 <= idx.1 < H && 0 <= idx.2 < D ==> func.requires((idx,)),
                forall|t: int|
                    0 <= t < s ==> func.ensures((Self::index_of(t),), #[trigger] grid@[t]),
            decreases n - s,
        {
            let idx = Self::index_from(s);
            let val: T = func(idx);
            grid.push(val);
            s = s + 1;
        }
        Self { grid }
    }

    /// The index within the grid of the site at flat position `s`.
    fn index_from(s: usize) -> (r: (isize, isize, isize))
        requires
            Self::dims_ok(),
            s < W * H * D,
        ensures
            r == Self::index_of(s as int),
            0 <= r.0 < W,
            0 <= r.1 < H,
            0 <= r.2 < D,
    {
        proof {
            Self::lemma_dims();
            Self::lemma_unflat3(s as int);
        }
        let x: usize = s % W;
        let rest: usize = s / W;
        let y: usize = rest % H;
        let z: usize = rest / H;
        (x as isize, y as isize, z as isize)
    }

    /// The flat position of the site that `idx` wraps around to.
    fn offset(idx: (isize, isize, isize)) -> (r: usize)
        requires
            Self::dims_ok(),
        ensures
            r == Self::position(idx),
            r < W * H * D,
    {
        proof {
            Self::lemma_dims();
        }
        let x: usize = wrap_coord(idx.0, W);
        let y: usize = wrap_coord(idx.1, H);
        let z: usize = wrap_coord(idx.2, D);
        proof {
            Self::lemma_flat3(x as int, y as int, z as int);
            lemma_flat(y as int, z as int, H as int, D as int);
        }
        (z * H + y) * W + x
    }
}

impl<T: Copy + RandAtom, const W: usize, const H: usize, const D: usize> Storage for Array3d<
    T,
    W,
    H,
    D,
> {
    type Atom = T;

    type Index = (isize, isize, isize);

    open spec fn shape_ok() -> bool {
        Self::dims_ok()
    }

    open spec fn sites() -> nat {
        (W * H * D) as nat
    }

    open spec fn degree() -> nat {
        6
    }

    open spec fn slot(idx: (isize, isize, isize)) -> int {
        Self::position(idx)
    }

    open spec fn index_at(slot: int) -> (isize, isize, isize) {
        Self::index_of(slot)
    }

    open spec fn steppable(idx: (isize, isize, isize)) -> bool {
        &&& isize::MIN < idx.0 < isize::MAX
        &&& isize::MIN < idx.1 < isize::MAX
        &&& isize::MIN < idx.2 < isize::MAX
    }

    open spec fn neighbors(idx: (isize, isize, isize)) -> Seq<(isize, isize, isize)> {
        seq![
            ((idx.0 + 1) as isize, idx.1, idx.2),
            ((idx.0 - 1) as isize, idx.1, idx.2),
            (idx.0, (idx.1 + 1) as isize, idx.2),
            (idx.0, (idx.1 - 1) as isize, idx.2),
            (idx.0, idx.1, (idx.2 + 1) as isize),
            (idx.0, idx.1, (idx.2 - 1) as isize),
        ]
    }

    open spec fn hop(k: int, slot: int) -> int {
        let x = Self::col(slot);
        let y = Self::row(slot);
        let z = Self::layer(slot);
        let w = W as int;
        let h = H as int;
        let d = D as int;
        if k == 0 {
            flat3(wrap(x + 1, w), y, z, w, h)
        } else if k == 1 {
            flat3(wrap(x - 1, w), y, z, w, h)
        } else if k == 2 {
            flat3(x, wrap(y + 1, h), z, w, h)
        } else if k == 3 {
            flat3(x, wrap(y - 1, h), z, w, h)
        } else if k == 4 {
            flat3(x, y, wrap(z + 1, d), w, h)
        } else {
            flat3(x, y, wrap(z - 1, d), w, h)
        }
    }

    open spec fn reverse(k: int) -> int {
        if k == 0 {
            1
        } else if k == 1 {
            0
        } else if k == 2 {
            3
        } else if k == 3 {
            2
        } else if k == 4 {
            5
        } else {
            4
        }
    }

    open spec fn forward(k: int) -> bool {
        k == 1 || k == 3 || k == 5
    }

    open spec fn well_formed(&self) -> bool {
        Self::dims_ok() && self@.len() == W * H * D
    }

    open spec fn cells(&self) -> Seq<T> {
        self@
    }

    proof fn lemma_shape() {
        Self::lemma_dims();
        assert((W * H * D) * 6 == 6 * W * H * D) by (nonlinear_arith);
    }

    proof fn lemma_well_formed(&self) {
    }

    proof fn lemma_slot(idx: (isize, isize, isize)) {
        Self::lemma_position(idx);
    }

    proof fn lemma_index_at(slot: int) {
        Self::lemma_dims();
        Self::lemma_unflat3(slot);
        let idx = Self::index_at(slot);
        lemma_wrap_range(idx.0 as int, W as int);
        lemma_wrap_range(idx.1 as int, H as int);
        lemma_wrap_range(idx.2 as int, D as int);
    }

    proof fn lemma_neighbors(idx: (isize, isize, isize), k: int) {
        Self::lemma_dims();
        Self::lemma_position(idx);
        let n = Self::neighbors(idx)[k];
        Self::lemma_position(n);
        lemma_wrap_shift(idx.0 as int, 1, W as int);
        lemma_wrap_shift(idx.0 as int, -1, W as int);
        lemma_wrap_shift(idx.1 as int, 1, H as int);
        lemma_wrap_shift(idx.1 as int, -1, H as int);
        lemma_wrap_shift(idx.2 as int, 1, D as int);
        lemma_wrap_shift(idx.2 as int, -1, D as int);
    }

    proof fn lemma_hop(k: int, slot: int) {
        Self::lemma_steps(k, slot);
    }

    proof fn lemma_pairs(f: spec_fn(int) -> int) {
        reveal_with_fuel(sum, 7);
    }

    proof fn lemma_loop(k: int, slot: int, other: int) {
        Self::lemma_steps(k, slot);
        Self::lemma_steps(k, other);
    }

    fn fill_value(val: T) -> (r: Self) {
        Self::filled(val)
    }

    fn all_neighbors_to(&self, idx: (isize, isize, isize)) -> (r: Vec<(isize, isize, isize)>) {
        let mut out: Vec<(isize, isize, isize)> = Vec::new();
        out.push((idx.0 + 1, idx.1, idx.2));
        out.push((idx.0 - 1, idx.1, idx.2));
        out.push((idx.0, idx.1 + 1, idx.2));
        out.push((idx.0, idx.1 - 1, idx.2));
        out.push((idx.0, idx.1, idx.2 + 1));
        out.push((idx.0, idx.1, idx.2 - 1));
        assert(out@ =~= Self::neighbors(idx));
        out
    }

    fn all_idxs(&self) -> (r: Vec<(isize, isize, isize)>) {
        proof {
            Self::lemma_dims();
            assert(D * H == H * D && (H * D) * W == W * H * D) by (nonlinear_arith);
        }
        let layers = grid_pairs(D, H);
        let triples = paired_with_range(&layers, W);
        let mut out: Vec<(isize, isize, isize)> = Vec::new();
        let mut s: usize = 0;
        while s < triples.len()
            invariant
                Self::dims_ok(),
                layers@.len() == H * D,
                forall|at: int|
                    0 <= at < layers@.len() ==> #[trigger] layers@[at] == (
                        (at / (H as int)) as usize,
                        (at % (H as int)) as usize,
                    ),
                triples@.len() == W * H * D,
                forall|at: int|
                    0 <= at < triples@.len() ==> #[trigger] triples@[at] == (
                        layers@[at / (W as int)],
                        (at % (W as int)) as usize,
                    ),
                0 <= s <= triples@.len(),
                out@.len() == s,
                forall|t: int| 0 <= t < s ==> out@[t] == Self::index_at(t),
            decreases triples@.len() - s,
        {
            let triple: ((usize, usize), usize) = triples[s];
            proof {
                Self::lemma_dims();
                Self::lemma_unflat3(s as int);
                lemma_unflat(s as int, W as int, H * D);
            }
            out.push((triple.1 as isize, (triple.0).1 as isize, (triple.0).0 as isize));
            s = s + 1;
        }
        out
    }

    fn tot_sites(&self) -> (r: usize) {
        proof {
            Self::lemma_dims();
        }
        W * H * D
    }

    fn as_flat_slice(&self) -> (r: &[T]) {
        self.grid.as_slice()
    }

    fn as_flat_slice_mut(&mut self) -> (r: &mut [T]) {
        self.grid.as_mut_slice()
    }

    fn random_idx(&self, rng: &mut MyRng) -> (r: (isize, isize, isize)) {
        proof {
            Self::lemma_dims();
        }
        let x: u64 = draw_below(rng, W as u64);
        let y: u64 = draw_below(rng, H as u64);
        let z: u64 = draw_below(rng, D as u64);
        proof {
            lemma_wrap_range(x as int, W as int);
            lemma_wrap_range(y as int, H as int);
            lemma_wrap_range(z as int, D as int);
            Self::lemma_flat3(x as int, y as int, z as int);
        }
        (x as isize, y as isize, z as isize)
    }

    fn choose_idxs_uniformly(&self, rng: &mut MyRng) -> (r: (
        (isize, isize, isize),
        (isize, isize, isize),
    )) {
        let first = self.random_idx(rng);
        let second = self.random_idx(rng);
        (first, second)
    }

    fn reduce_index(&self, idx: (isize, isize, isize)) -> (r: (isize, isize, isize))
        ensures
            r.0 == wrap(idx.0 as int, W as int),
            r.1 == wrap(idx.1 as int, H as int),
            r.2 == wrap(idx.2 as int, D as int),
    {
        proof {
            Self::lemma_dims();
            Self::lemma_position(idx);
        }
        let x: usize = wrap_coord(idx.0, W);
        let y: usize = wrap_coord(idx.1, H);
        let z: usize = wrap_coord(idx.2, D);
        (x as isize, y as isize, z as isize)
    }

    fn get(&self, idx: (isize, isize, isize)) -> (r: T) {
        let at: usize = Self::offset(idx);
        self.grid[at]
    }

    fn set(&mut self, idx: (isize, isize, isize), val: T) {
        let at: usize = Self::offset(idx);
        self.grid.set(at, val);
    }

    fn swap_vals(&mut self, idx_1: (isize, isize, isize), idx_2: (isize, isize, isize)) {
        let at_1: usize = Self::offset(idx_1);
        let at_2: usize = Self::offset(idx_2);
        let temp: T = self.grid[at_1];
        let other: T = self.grid[at_2];
        self.grid.set(at_1, other);
        self.grid.set(at_2, temp);
    }
}

impl<T: Copy + RandAtom, const W: usize, const H: usize, const D: usize> Array3d<T, W, H, D> {
    /// Every hop stays on the grid, is undone by its reverse, and leads back to where it
    /// started only along an axis of length one.
    proof fn lemma_steps(k: int, slot: int)
        requires
            Self::dims_ok(),
            0 <= k < 6,
            0 <= slot < W * H * D,
        ensures
            0 <= Self::hop(k, slot) < W * H * D,
            0 <= Self::reverse(k) < 6,
            Self::reverse(Self::reverse(k)) == k,
            Self::forward(Self::reverse(k)) != Self::forward(k),
            Self::hop(Self::reverse(k), Self::hop(k, slot)) == slot,
            Self::hop(k, slot) == slot <==> (if k < 2 {
                W == 1
            } else if k < 4 {
                H == 1
            } else {
                D == 1
            }),
    {
        Self::lemma_dims();
        Self::lemma_unflat3(slot);
        let x = Self::col(slot);
        let y = Self::row(slot);
        let z = Self::layer(slot);
        let w = W as int;
        let h = H as int;
        let d = D as int;
        lemma_wrap_range(x, w);
        lemma_wrap_range(y, h);
        lemma_wrap_range(z, d);
        lemma_wrap_step(x, w);
        lemma_wrap_step(y, h);
        lemma_wrap_step(z, d);
        if k == 0 {
            lemma_wrap_range(x + 1, w);
            Self::lemma_flat3(wrap(x + 1, w), y, z);
        } else if k == 1 {
            lemma_wrap_range(x - 1, w);
            Self::lemma_flat3(wrap(x - 1, w), y, z);
        } else if k == 2 {
            lemma_wrap_range(y + 1, h);
            Self::lemma_flat3(x, wrap(y + 1, h), z);
        } else if k == 3 {
            lemma_wrap_range(y - 1, h);
            Self::lemma_flat3(x, wrap(y - 1, h), z);
        } else if k == 4 {
            lemma_wrap_range(z + 1, d);
            Self::lemma_flat3(x, y, wrap(z + 1, d));
        } else {
            lemma_wrap_range(z - 1, d);
            Self::lemma_flat3(x, y, wrap(z - 1, d));
        }
        Self::lemma_flat3(x, y, z);
    }
}

impl<T: Copy + RandAtom, const W: usize, const H: usize, const D: usize> Lattice for Array3d<
    T,
    W,
    H,
    D,
> {
    fn all_neighbors(&self) -> (r: PairCounts<T>) {
        let ghost c = self@;
        let mut out: PairCounts<T> = Vec::new();
        proof {
            Self::lemma_dims();
        }
        let n: usize = W * H * D;
        let mut s: usize = 0;
        while s < n
            invariant
                self.well_formed(),
                c == self@,
                n == W * H * D,
                s <= n,
                tidy(out@),
                counted(out@) == 3 * s,
                forall|e: spec_fn(T, T) -> int| #[trigger]
                    weighted(out@, e) == sum(|t: int| forward_around::<Self>(e, c, t), s as int),
            decreases n - s,
        {
            let ghost before = out@;
            let idx = Self::index_from(s);
            proof {
                Self::lemma_dims();
                Self::lemma_unflat3(s as int);
                Self::lemma_index_at(s as int);
                Self::lemma_neighbors(idx, 1);
                Self::lemma_neighbors(idx, 3);
                Self::lemma_neighbors(idx, 5);
            }
            let here: T = self.get(idx);
            let left: T = self.get((idx.0 - 1, idx.1, idx.2));
            let up: T = self.get((idx.0, idx.1 - 1, idx.2));
            let below: T = self.get((idx.0, idx.1, idx.2 - 1));
            record_pair(&mut out, here, left);
            record_pair(&mut out, here, up);
            record_pair(&mut out, here, below);
            proof {
                assert forall|e: spec_fn(T, T) -> int| #[trigger]
                    weighted(out@, e) == sum(
                        |t: int| forward_around::<Self>(e, c, t),
                        s + 1,
                    ) by {
                    reveal_with_fuel(sum, 7);
                    assert(forward_around::<Self>(e, c, s as int) == e(here, left) + e(here, up)
                        + e(here, below));
                    assert(weighted(before, e) == sum(
                        |t: int| forward_around::<Self>(e, c, t),
                        s as int,
                    ));
                }
            }
            s = s + 1;
        }
        proof {
            assert forall|e: spec_fn(T, T) -> int| #[trigger]
                weighted(out@, e) == total::<Self>(e, c) by {
                lemma_total_by_site::<Self>(e, c);
            }
        }
        out
    }
}

impl<T: Copy + RandAtom, const W: usize, const H: usize, const D: usize> GifFrame for Array3d<
    T,
    W,
    H,
    D,
> {
    open spec fn frame_width() -> nat {
        W as nat
    }

    open spec fn frame_height() -> nat {
        H as nat
    }

    /// The first layer, as pixels.
    fn get_frame(&self) -> (r: Frame) {
        proof {
            Self::lemma_dims();
        }
        Frame { width: W as u16, height: H as u16, pixels: leading_bytes(self, W * H) }
    }
}

} // verus!
