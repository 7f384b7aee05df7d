use crate::atoms::RandAtom;
use crate::energy::{forward_around, lemma_total_by_site, total};
use crate::frame::{leading_bytes, Frame, GifFrame};
use crate::lattice::{Lattice, Storage};
use crate::pairs::{counted, record_pair, tidy, weighted, PairCounts};
use crate::rng::{draw_below, MyRng};
use crate::sums::sum;
use crate::torus::{
    flat, lemma_flat, lemma_unflat, lemma_wrap_periodic, lemma_wrap_range, lemma_wrap_shift,
    lemma_wrap_step, wrap,
};
use vstd::arithmetic::power2::{
    lemma2_to64, lemma2_to64_rest, lemma_pow2_adds, lemma_pow2_strictly_increases, pow2,
};
use vstd::bits::{lemma_usize_low_bits_mask_is_mod, low_bits_mask};
use vstd::prelude::*;

verus! {

/// A square 2D grid whose indices wrap around by bit masking. Its side `SIDE` is two to the
/// power `POW`.
pub struct FastArray<T: Copy, const SIDE: usize, const POW: usize> {
    grid: Vec<T>,
}

impl<T: Copy, const SIDE: usize, const POW: usize> View for FastArray<T, SIDE, POW> {
    type V = Seq<T>;

    /// The occupants, row by row.
    closed spec fn view(&self) -> Seq<T> {
        self.grid@
    }
}

impl<T: Copy, const SIDE: usize, const POW: usize> FastArray<T, SIDE, POW> {
    /// Whether the side is the stated power of two, and the grid small enough that the
    /// neighbours of all sites together can be counted in a `u32`.
    pub open spec fn dims_ok() -> bool {
        SIDE == pow2(POW as nat) && 4 * SIDE * SIDE <= u32::MAX
    }

    /// The flat position of the site that `idx` wraps around to.
    pub open spec fn position(idx: (usize, usize)) -> int {
        flat(wrap(idx.0 as int, SIDE as int), wrap(idx.1 as int, SIDE as int), SIDE as int)
    }

    /// The index within the grid of a flat position.
    pub open spec fn index_of(s: int) -> (usize, usize) {
        ((s % (SIDE as int)) as usize, (s / (SIDE as int)) as usize)
    }

    /// The side is a small power of two, and the largest index lies just before a multiple
    /// of it.
    pub proof fn lemma_dims()
        requires
            Self::dims_ok(),
        ensures
            1 <= SIDE <= SIDE * SIDE <= 0x3fff_ffff,
            POW < 16,
            SIDE - 1 == low_bits_mask(POW as nat),
            wrap(usize::MAX as int, SIDE as int) == SIDE - 1,
    {
        let side = SIDE as int;
        vstd::arithmetic::power2::lemma_pow2_pos(POW as nat);
        assert(SIDE <= SIDE * SIDE && 4 * (SIDE * SIDE) == 4 * SIDE * SIDE) by (nonlinear_arith)
            requires
                SIDE >= 1,
        ;
        lemma2_to64();
        if POW >= 16 {
            if POW > 16 {
                lemma_pow2_strictly_increases(16, POW as nat);
            }
            assert(SIDE * SIDE >= 65536 * 65536) by (nonlinear_arith)
                requires
                    SIDE >= 65536,
            ;
        }
        let bits: nat = if usize::MAX == 0xffff_ffff {
            32
        } else {
            64
        };
        assert(usize::MAX + 1 == pow2(bits)) by {
            lemma2_to64();
            lemma2_to64_rest();
        }
        lemma_pow2_adds(POW as nat, (bits - POW) as nat);
        let turns = pow2((bits - POW) as nat) as int;
        lemma_wrap_periodic(-1, turns, side);
        assert(-1 + turns * side == usize::MAX) by (nonlinear_arith)
            requires
                side * turns == usize::MAX + 1,
        ;
    }

    /// Masking an index with the side less one wraps it onto an axis.
    fn masked(x: usize) -> (r: usize)
        requires
            Self::dims_ok(),
        ensures
            r == wrap(x as int, SIDE as int),
            r < SIDE,
    {
        proof {
            Self::lemma_dims();
            lemma_usize_low_bits_mask_is_mod(x, POW as nat);
            lemma_wrap_range(x as int, SIDE as int);
        }
        x & (SIDE - 1)
    }

    /// Every index wraps around to a site of the grid, whose column and row are the wrapped
    /// coordinates.
    pub proof fn lemma_position(idx: (usize, usize))
        requires
            Self::dims_ok(),
        ensures
            0 <= Self::position(idx) < SIDE * SIDE,
            Self::position(idx) % (SIDE as int) == wrap(idx.0 as int, SIDE as int),
            Self::position(idx) / (SIDE as int) == wrap(idx.1 as int, SIDE as int),
    {
        Self::lemma_dims();
        lemma_wrap_range(idx.0 as int, SIDE as int);
        lemma_wrap_range(idx.1 as int, SIDE as int);
        lemma_flat(
            wrap(idx.0 as int, SIDE as int),
            wrap(idx.1 as int, SIDE as int),
            SIDE as int,
            SIDE as int,
        );
    }

    /// A grid with the default occupant at every site.
    pub fn new() -> (r: Self) where T: Default
        requires
            Self::dims_ok(),
        ensures
            r@.len() == SIDE * SIDE,
            call_ensures(T::default, (), r@[0]),
            forall|s: int| 0 <= s < r@.len() ==> #[trigger] r@[s] == r@[0],
    {
        proof {
            Self::lemma_dims();
        }
        Self::filled(T::default())
    }

    /// A grid with `val` at every site.
    fn filled(val: T) -> (r: Self)
        requires
            Self::dims_ok(),
        ensures
            r@ == Seq::new((SIDE * SIDE) as nat, |s: int| val),
    {
        proof {
            Self::lemma_dims();
        }
        let n: usize = SIDE * SIDE;
        let mut grid: Vec<T> = Vec::new();
        let mut i: usize = 0;
        while i < n
            invariant
                i <= n,
                grid@ == Seq::new(i as nat, |s: int| val),
            decreases n - i,
        {
            grid.push(val);
            i = i + 1;
            assert(grid@ =~= Seq::new(i as nat, |s: int| val));
        }
        Self { grid }
    }

    /// The index within the grid of the site at flat position `s`.
    fn index_from(s: usize) -> (r: (usize, usize))
        requires
            Self::dims_ok(),
            s < SIDE * SIDE,
        ensures
            r == Self::index_of(s as int),
            r.0 < SIDE,
            r.1 < SIDE,
    {
        proof {
            Self::lemma_dims();
            lemma_unflat(s as int, SIDE as int, SIDE as int);
        }
        (s % SIDE, s / SIDE)
    }

    /// A grid whose every site holds what `func` returns for the index of that site. The
    /// function is asked for the indices within the grid only.
    pub fn fill_with_fn<F: Fn((usize, usize)) -> T>(func: F) -> (r: Self)
        requires
            Self::dims_ok(),
            forall|idx: (usize, usize)| idx.0 < SIDE && idx.1 < SIDE ==> func.requires((idx,)),
        ensures
            r@.len() == SIDE * SIDE,
            forall|s: int|
                0 <= s < SIDE * SIDE ==> func.ensures((Self::index_of(s),), #[trigger] r@[s]),
    {
        proof {
            Self::lemma_dims();
        }
        let n: usize = SIDE * SIDE;
        let mut grid: Vec<T> = Vec::new();
        let mut s: usize = 0;
        while s < n
            invariant
                Self::dims_ok(),
                n == SIDE * SIDE,
                s <= n,
                grid@.len() == s,
                forall|idx: (usize, usize)| idx.0 < SIDE && idx.1 < SIDE ==> func.requires((idx,)),
                forall|t: int|
                    0 <= t < s ==> func.ensures((Self::index_of(t),), #[trigger] grid@[t]),
            decreases n - s,
        {
            let idx = Self::index_from(s);
            let val: T = func(idx);
            grid.push(val);
            s = s + 1;
        }
        Self { grid }
    }

    /// The flat position of the site that `idx` wraps around to.
    fn offset(idx: (usize, usize)) -> (r: usize)
        requires
            Self::dims_ok(),
        ensures
            r == Self::position(idx),
            r < SIDE * SIDE,
    {
        proof {
            Self::lemma_dims();
        }
        let x: usize = Self::masked(idx.0);
        let y: usize = Self::masked(idx.1);
        proof {
            lemma_flat(x as int, y as int, SIDE as int, SIDE as int);
        }
        y * SIDE + x
    }
}

impl<T: Copy + RandAtom, const SIDE: usize, const POW: usize> FastArray<T, SIDE, POW> {
    /// Every hop stays on the grid, is undone by its reverse, and leads back to where it
    /// started only on a grid of one site.
    proof fn lemma_steps(k: int, slot: int)
        requires
            Self::dims_ok(),
            0 <= k < 4,
            0 <= slot < SIDE * SIDE,
        ensures
            0 <= Self::hop(k, slot) < SIDE * SIDE,
            0 <= Self::reverse(k) < 4,
            Self::reverse(Self::reverse(k)) == k,
            Self::forward(Self::reverse(k)) != Self::forward(k),
            Self::hop(Self::reverse(k), Self::hop(k, slot)) == slot,
            Self::hop(k, slot) == slot <==> SIDE == 1,
    {
        Self::lemma_dims();
        let side = SIDE as int;
        lemma_unflat(slot, side, side);
        let x = slot % side;
        let y = slot / side;
        lemma_wrap_range(x, side);
        lemma_wrap_range(y, side);
        lemma_wrap_step(x, side);
        lemma_wrap_step(y, side);
        if k == 0 {
            lemma_wrap_range(x + 1, side);
            lemma_flat(wrap(x + 1, side), y, side, side);
        } else if k == 1 {
            lemma_wrap_range(y + 1, side);
            lemma_flat(x, wrap(y + 1, side), side, side);
        } else if k == 2 {
            lemma_wrap_range(x - 1, side);
            lemma_flat(wrap(x - 1, side), y, side, side);
        } else {
            lemma_wrap_range(y - 1, side);
            lemma_flat(x, wrap(y - 1, side), side, side);
        }
        lemma_flat(x, y, side, side);
    }

    /// The cell that the index after `x` wraps to is one step after the cell of `x`, and
    /// the cell of the index before `x` one step before, also where the index itself
    /// wraps around.
    proof fn lemma_wrapping(x: usize)
        requires
            Self::dims_ok(),
        ensures
            wrap(x.wrapping_add(1) as int, SIDE as int) == wrap(
                wrap(x as int, SIDE as int) + 1,
                SIDE as int,
            ),
            wrap(x.wrapping_add_signed(-1isize) as int, SIDE as int) == wrap(
                wrap(x as int, SIDE as int) - 1,
                SIDE as int,
            ),
    {
        Self::lemma_dims();
        let side = SIDE as int;
        lemma_wrap_shift(x as int, 1, side);
        lemma_wrap_shift(x as int, -1, side);
        lemma_wrap_range(0, side);
        lemma_wrap_periodic(0, 1, side);
        lemma_wrap_periodic(-1, 0, side);
        assert(0 + 1 * side == side);
    }
}

impl<T: Copy + RandAtom, const SIDE: usize, const POW: usize> Storage for FastArray<
    T,
    SIDE,
    POW,
> {
    type Atom = T;

    type Index = (usize, usize);

    open spec fn shape_ok() -> bool {
        Self::dims_ok()
    }

    open spec fn sites() -> nat {
        (SIDE * SIDE) as nat
    }

    open spec fn degree() -> nat {
        4
    }

    open spec fn slot(idx: (usize, usize)) -> int {
        Self::position(idx)
    }

    open spec fn index_at(slot: int) -> (usize, usize) {
        Self::index_of(slot)
    }

    open spec fn steppable(idx: (usize, usize)) -> bool {
        true
    }

    open spec fn neighbors(idx: (usize, usize)) -> Seq<(usize, usize)> {
        seq![
            (idx.0.wrapping_add(1), idx.1),
            (idx.0, idx.1.wrapping_add(1)),
            (idx.0.wrapping_add_signed(-1isize), idx.1),
            (idx.0, idx.1.wrapping_add_signed(-1isize)),
        ]
    }

    open spec fn hop(k: int, slot: int) -> int {
        let side = SIDE as int;
        let x = slot % side;
        let y = slot / side;
        if k == 0 {
            flat(wrap(x + 1, side), y, side)
        } else if k == 1 {
            flat(x, wrap(y + 1, side), side)
        } else if k == 2 {
            flat(wrap(x - 1, side), y, side)
        } else {
            flat(x, wrap(y - 1, side), side)
        }
    }

    open spec fn reverse(k: int) -> int {
        if k == 0 {
            2
        } else if k == 1 {
            3
        } else if k == 2 {
            0
        } else {
            1
        }
    }

    open spec fn forward(k: int) -> bool {
        k == 0 || k == 1
    }

    open spec fn well_formed(&self) -> bool {
        Self::dims_ok() && self@.len() == SIDE * SIDE
    }

    open spec fn cells(&self) -> Seq<T> {
        self@
    }

    proof fn lemma_shape() {
        Self::lemma_dims();
        assert((SIDE * SIDE) * 4 == 4 * SIDE * SIDE) by (nonlinear_arith);
    }

    proof fn lemma_well_formed(&self) {
    }

    proof fn lemma_slot(idx: (usize, usize)) {
        Self::lemma_position(idx);
    }

    proof fn lemma_index_at(slot: int) {
        Self::lemma_dims();
        lemma_unflat(slot, SIDE as int, SIDE as int);
        let idx = Self::index_at(slot);
        lemma_wrap_range(idx.0 as int, SIDE as int);
        lemma_wrap_range(idx.1 as int, SIDE as int);
    }

    proof fn lemma_neighbors(idx: (usize, usize), k: int) {
        Self::lemma_dims();
        Self::lemma_position(idx);
        let n = Self::neighbors(idx)[k];
        Self::lemma_position(n);
        Self::lemma_wrapping(idx.0);
        Self::lemma_wrapping(idx.1);
    }

    proof fn lemma_hop(k: int, slot: int) {
        Self::lemma_steps(k, slot);
    }

    proof fn lemma_pairs(f: spec_fn(int) -> int) {
        reveal_with_fuel(sum, 5);
    }

    proof fn lemma_loop(k: int, slot: int, other: int) {
        Self::lemma_steps(k, slot);
        Self::lemma_steps(k, other);
    }

    fn fill_value(val: T) -> (r: Self) {
        Self::filled(val)
    }

    fn all_neighbors_to(&self, idx: (usize, usize)) -> (r: Vec<(usize, usize)>) {
        let x: usize = idx.0;
        let y: usize = idx.1;
        let mut out: Vec<(usize, usize)> = Vec::new();
        out.push((x.wrapping_add(1), y));
        out.push((x, y.wrapping_add(1)));
        out.push((x.wrapping_add_signed(-1isize), y));
        out.push((x, y.wrapping_add_signed(-1isize)));
        assert(out@ =~= Self::neighbors(idx));
        out
    }

    fn all_idxs(&self) -> (r: Vec<(usize, usize)>) {
        proof {
            Self::lemma_dims();
        }
        let n: usize = SIDE * SIDE;
        let mut out: Vec<(usize, usize)> = Vec::new();
        let mut s: usize = 0;
        while s < n
            invariant
                Self::dims_ok(),
                n == SIDE * SIDE,
                s <= n,
                out@.len() == s,
                forall|t: int| 0 <= t < s ==> out@[t] == Self::index_at(t),
            decreases n - s,
        {
            out.push(Self::index_from(s));
            s = s + 1;
        }
        out
    }

    fn tot_sites(&self) -> (r: usize) {
        proof {
            Self::lemma_dims();
        }
        SIDE * SIDE
    }

    fn as_flat_slice(&self) -> (r: &[T]) {
        self.grid.as_slice()
    }

    fn as_flat_slice_mut(&mut self) -> (r: &mut [T]) {
        self.grid.as_mut_slice()
    }

    fn random_idx(&self, rng: &mut MyRng) -> (r: (usize, usize)) {
        proof {
            Self::lemma_dims();
        }
        let x: u64 = draw_below(rng, SIDE as u64);
        let y: u64 = draw_below(rng, SIDE as u64);
        proof {
            lemma_wrap_range(x as int, SIDE as int);
            lemma_wrap_range(y as int, SIDE as int);
            lemma_flat(x as int, y as int, SIDE as int, SIDE as int);
        }
        (x as usize, y as usize)
    }

    fn choose_idxs_uniformly(&self, rng: &mut MyRng) -> (r: ((usize, usize), (usize, usize))) {
        let first = self.random_idx(rng);
        let second = self.random_idx(rng);
        (first, second)
    }

    fn reduce_index(&self, idx: (usize, usize)) -> (r: (usize, usize))
        ensures
            r.0 == wrap(idx.0 as int, SIDE as int),
            r.1 == wrap(idx.1 as int, SIDE as int),
    {
        proof {
            Self::lemma_dims();
            Self::lemma_position(idx);
        }
        (Self::masked(idx.0), Self::masked(idx.1))
    }

    fn get(&self, idx: (usize, usize)) -> (r: T) {
        let at: usize = Self::offset(idx);
        self.grid[at]
    }

    fn set(&mut self, idx: (usize, usize), val: T) {
        let at: usize = Self::offset(idx);
        self.grid.set(at, val);
    }

    fn swap_vals(&mut self, idx_1: (usize, usize), idx_2: (usize, usize)) {
        let at_1: usize = Self::offset(idx_1);
        let at_2: usize = Self::offset(idx_2);
        let temp: T = self.grid[at_1];
        let other: T = self.grid[at_2];
        self.grid.set(at_1, other);
        self.grid.set(at_2, temp);
    }
}

impl<T: Copy + RandAtom, const SIDE: usize, const POW: usize> Lattice for FastArray<
    T,
    SIDE,
    POW,
> {
    fn all_neighbors(&self) -> (r: PairCounts<T>) {
        let ghost c = self@;
        let mut out: PairCounts<T> = Vec::new();
        proof {
            Self::lemma_dims();
        }
        let n: usize = SIDE * SIDE;
        let mut s: usize = 0;
        while s < n
            invariant
                self.well_formed(),
                c == self@,
                n == SIDE * SIDE,
                s <= n,
                tidy(out@),
                counted(out@) == 2 * s,
                forall|e: spec_fn(T, T) -> int| #[trigger]
                    weighted(out@, e) == sum(|t: int| forward_around::<Self>(e, c, t), s as int),
            decreases n - s,
        {
            let ghost before = out@;
            let idx = Self::index_from(s);
            proof {
                Self::lemma_dims();
                Self::lemma_index_at(s as int);
                Self::lemma_neighbors(idx, 0);
                Self::lemma_neighbors(idx, 1);
            }
            let here: T = self.get(idx);
            let right: T = self.get((idx.0 + 1, idx.1));
            let down: T = self.get((idx.0, idx.1 + 1));
            record_pair(&mut out, here, right);
            record_pair(&mut out, here, down);
            proof {
                assert forall|e: spec_fn(T, T) -> int| #[trigger]
                    weighted(out@, e) == sum(
                        |t: int| forward_around::<Self>(e, c, t),
                        s + 1,
                    ) by {
                    reveal_with_fuel(sum, 5);
                    assert(forward_around::<Self>(e, c, s as int) == e(here, right) + e(
                        here,
                        down,
                    ));
                    assert(weighted(before, e) == sum(
                        |t: int| forward_around::<Self>(e, c, t),
                        s as int,
                    ));
                }
            }
            s = s + 1;
        }
        proof {
            assert forall|e: spec_fn(T, T) -> int| #[trigger]
                weighted(out@, e) == total::<Self>(e, c) by {
                lemma_total_by_site::<Self>(e, c);
            }
        }
        out
    }
}

impl<T: Copy + RandAtom, const SIDE: usize, const POW: usize> GifFrame for FastArray<
    T,
    SIDE,
    POW,
> {
    open spec fn frame_width() -> nat {
        SIDE as nat
    }

    open spec fn frame_height() -> nat {
        SIDE as nat
    }

    fn get_frame(&self) -> (r: Frame) {
        proof {
            Self::lemma_dims();
        }
        Frame { width: SIDE as u16, height: SIDE as u16, pixels: leading_bytes(self, SIDE * SIDE) }
    }
}

} // verus!
