use crate::atoms::RandAtom;
use crate::energy::counts_bonds;
use crate::pairs::PairCounts;
use crate::rng::MyRng;
use crate::sums::sum;
use vstd::prelude::*;

verus! {

/// A fixed-size periodic grid of occupants.
///
/// Every index, however far outside the grid, stands for exactly one site. The sites are
/// numbered from zero (their slots), and `cells` lists the occupants in that order. Each site
/// has `degree` neighbours, reached by the hops `0..degree`; every hop has a reverse, and one
/// hop of each such pair is a forward hop. Following the forward hops from every
/// site visits each bond of the grid exactly once.
pub trait Storage: Sized {
    type Atom: RandAtom;

    type Index;

    /// Whether the dimensions of this kind of lattice are usable: no axis is empty, and the
    /// neighbours of all sites together can be counted in a `u32`.
    spec fn shape_ok() -> bool;

    /// The number of sites.
    spec fn sites() -> nat;

    /// The number of neighbours of each site.
    spec fn degree() -> nat;

    /// The slot of the site that `idx` stands for.
    spec fn slot(idx: Self::Index) -> int;

    /// The index within the grid of the site at `slot`.
    spec fn index_at(slot: int) -> Self::Index;

    /// Whether the neighbours of `idx` can be written down without leaving the index type.
    spec fn steppable(idx: Self::Index) -> bool;

    /// The neighbours of `idx`, one per hop, not wrapped into the grid.
    spec fn neighbors(idx: Self::Index) -> Seq<Self::Index>;

    /// The slot that hop `k` leads to from `slot`.
    spec fn hop(k: int, slot: int) -> int;

    /// The hop that undoes hop `k`.
    spec fn reverse(k: int) -> int;

    /// Whether hop `k` is one of the hops along which bonds are enumerated.
    spec fn forward(k: int) -> bool;

    /// Whether this value is a complete lattice.
    spec fn well_formed(&self) -> bool;

    /// The occupants, by slot.
    spec fn cells(&self) -> Seq<Self::Atom>;

    /// A usable lattice has sites and neighbours, and the neighbours of all sites together
    /// can be counted in a `u32`.
    proof fn lemma_shape()
        requires
            Self::shape_ok(),
        ensures
            0 < Self::sites(),
            0 < Self::degree(),
            Self::sites() * Self::degree() <= u32::MAX,
    ;

    /// A complete lattice has usable dimensions and an occupant for every site.
    proof fn lemma_well_formed(&self)
        requires
            self.well_formed(),
        ensures
            Self::shape_ok(),
            self.cells().len() == Self::sites(),
    ;

    /// Every index stands for a site of the grid.
    proof fn lemma_slot(idx: Self::Index)
        requires
            Self::shape_ok(),
        ensures
            0 <= Self::slot(idx) < Self::sites(),
    ;

    /// Every slot has an index within the grid, whose neighbours can be written down.
    proof fn lemma_index_at(slot: int)
        requires
            Self::shape_ok(),
            0 <= slot < Self::sites(),
        ensures
            Self::slot(Self::index_at(slot)) == slot,
            Self::steppable(Self::index_at(slot)),
    ;

    /// The neighbours of an index are the sites that the hops lead to.
    proof fn lemma_neighbors(idx: Self::Index, k: int)
        requires
            Self::shape_ok(),
            Self::steppable(idx),
            0 <= k < Self::degree(),
        ensures
            Self::neighbors(idx).len() == Self::degree(),
            Self::slot(Self::neighbors(idx)[k]) == Self::hop(k, Self::slot(idx)),
    ;

    /// Hops stay on the grid and are undone by their reverse, which is forward exactly when
    /// the hop is not.
    proof fn lemma_hop(k: int, slot: int)
        requires
            Self::shape_ok(),
            0 <= k < Self::degree(),
            0 <= slot < Self::sites(),
        ensures
            0 <= Self::hop(k, slot) < Self::sites(),
            0 <= Self::reverse(k) < Self::degree(),
            Self::reverse(Self::reverse(k)) == k,
            Self::forward(Self::reverse(k)) != Self::forward(k),
            Self::hop(Self::reverse(k), Self::hop(k, slot)) == slot,
    ;

    /// Every hop is a forward hop or the reverse of one: a sum over all hops is the sum over
    /// the forward hops of the terms of each and of its reverse.
    proof fn lemma_pairs(f: spec_fn(int) -> int)
        requires
            Self::shape_ok(),
        ensures
            sum(f, Self::degree() as int) == sum(
                |k: int|
                    if Self::forward(k) {
                        f(k) + f(Self::reverse(k))
                    } else {
                        0
                    },
                Self::degree() as int,
            ),
    ;

    /// A hop that leads one site back to itself does so for every site.
    proof fn lemma_loop(k: int, slot: int, other: int)
        requires
            Self::shape_ok(),
            0 <= k < Self::degree(),
            0 <= slot < Self::sites(),
            0 <= other < Self::sites(),
            Self::hop(k, slot) == slot,
        ensures
            Self::hop(k, other) == other,
    ;

    /// A lattice with `val` at every site.
    fn fill_value(val: Self::Atom) -> (r: Self)
        requires
            Self::shape_ok(),
        ensures
            r.well_formed(),
            r.cells() == Seq::new(Self::sites(), |s: int| val),
    ;

    /// The neighbours of `idx`, not wrapped into the grid.
    fn all_neighbors_to(&self, idx: Self::Index) -> (r: Vec<Self::Index>)
        requires
            Self::steppable(idx),
        ensures
            r@ == Self::neighbors(idx),
    ;

    /// The index of every site, by slot.
    fn all_idxs(&self) -> (r: Vec<Self::Index>)
        requires
            self.well_formed(),
        ensures
            r@.len() == Self::sites(),
            forall|s: int| 0 <= s < r@.len() ==> r@[s] == Self::index_at(s),
    ;

    /// The number of sites.
    fn tot_sites(&self) -> (r: usize)
        requires
            self.well_formed(),
        ensures
            r == Self::sites(),
    ;

    /// The occupants, by slot.
    fn as_flat_slice(&self) -> (r: &[Self::Atom])
        requires
            self.well_formed(),
        ensures
            r@ == self.cells(),
    ;

    /// The occupants, by slot, to be changed in place.
    fn as_flat_slice_mut(&mut self) -> (r: &mut [Self::Atom])
        requires
            old(self).well_formed(),
        ensures
            r@ == old(self).cells(),
            final(self).cells() == final(r)@,
            final(r)@.len() == r@.len() ==> final(self).well_formed(),
    ;

    /// The index of a site drawn with equal chance among all sites.
    fn random_idx(&self, rng: &mut MyRng) -> (r: Self::Index)
        requires
            self.well_formed(),
        ensures
            r == Self::index_at(Self::slot(r)),
    ;

    /// Two indices, each drawn as `random_idx` draws one.
    fn choose_idxs_uniformly(&self, rng: &mut MyRng) -> (r: (Self::Index, Self::Index))
        requires
            self.well_formed(),
        ensures
            r.0 == Self::index_at(Self::slot(r.0)),
            r.1 == Self::index_at(Self::slot(r.1)),
    ;

    /// The index within the grid that stands for the same site as `idx`.
    fn reduce_index(&self, idx: Self::Index) -> (r: Self::Index)
        requires
            self.well_formed(),
        ensures
            r == Self::index_at(Self::slot(idx)),
    ;

    /// The occupant of the site that `idx` stands for.
    fn get(&self, idx: Self::Index) -> (r: Self::Atom)
        requires
            self.well_formed(),
        ensures
            r == self.cells()[Self::slot(idx)],
    ;

    /// Puts `val` on the site that `idx` stands for.
    fn set(&mut self, idx: Self::Index, val: Self::Atom)
        requires
            old(self).well_formed(),
        ensures
            final(self).well_formed(),
            final(self).cells() == old(self).cells().update(Self::slot(idx), val),
    ;

    /// Exchanges the occupants of two sites.
    fn swap_vals(&mut self, idx_1: Self::Index, idx_2: Self::Index)
        requires
            old(self).well_formed(),
        ensures
            final(self).well_formed(),
            final(self).cells() == swapped(
                old(self).cells(),
                Self::slot(idx_1),
                Self::slot(idx_2),
            ),
    ;
}

/// A periodic grid that can count its bonds.
pub trait Lattice: Storage {
    /// The pairs of occupants at the two ends of every bond, each bond counted once, with
    /// the number of bonds that hold each pair.
    fn all_neighbors(&self) -> (r: PairCounts<Self::Atom>)
        requires
            self.well_formed(),
        ensures
            counts_bonds::<Self>(r@, self.cells()),
    ;
}

/// The occupants `cells` after those at slots `p` and `q` have changed places.
pub open spec fn swapped<A>(cells: Seq<A>, p: int, q: int) -> Seq<A> {
    cells.update(p, cells[q]).update(q, cells[p])
}

} // verus!
