use crate::atoms::{Mark, RandAtom};
use crate::cluster::{multiplicity, total_weight, ClusterDistribution};
use crate::counter::{matching, ClusterCounter};
use crate::energy::{
    along, around, bond_term, lemma_inert_site, lemma_swap_energy, symmetric, total, Energies,
};
use crate::frame::{Frame, GifFrame};
use crate::lattice::{swapped, Lattice, Storage};
use crate::pairs::{weighted, PairCounts};
use crate::regions::clusters_of_size;
use crate::rng::{choose_one, new_rng, MyRng};
use crate::sums::{lemma_sum_bounds, sum};
use vstd::prelude::*;

verus! {

/// The energy that `table` gives to each pair of occupants.
pub open spec fn pair_energy<A: RandAtom, E: Energies<A>>(table: E) -> spec_fn(A, A) -> int {
    |a: A, b: A| table.energy(a, b)
}

/// Whether a move that changes the energy by `delta` is taken, given the rise in energy that
/// the thermal draw of this move lets it afford: moves that do not raise the energy always
/// are, and others when they rise less than `barrier`.
pub open spec fn affordable(delta: int, barrier: int) -> bool {
    delta <= 0 || delta < barrier
}

/// Whether the occupants and the recorded vacancy agree: every site holds an unmarked
/// species or is empty, and the one empty site, if any, is the recorded one.
pub open spec fn settled<L: Storage>(cells: Seq<L::Atom>, vacancy: Option<L::Index>) -> bool {
    &&& forall|s: int|
        0 <= s < cells.len() ==> (#[trigger] cells[s]).is_species() || cells[s].is_vacancy()
    &&& match vacancy {
        Some(v) => v == L::index_at(L::slot(v)) && forall|s: int|
            0 <= s < cells.len() ==> ((#[trigger] cells[s]).is_vacancy() <==> s == L::slot(v)),
        None => forall|s: int| 0 <= s < cells.len() ==> !(#[trigger] cells[s]).is_vacancy(),
    }
}

/// A lattice gas with its pair energies, its generator, its energy and its vacancy.
pub struct System<L: Lattice, E: Energies<L::Atom>> {
    bond_energies: E,
    lattice: L,
    rng: MyRng,
    internal_energy: Option<i64>,
    vacancy: Option<L::Index>,
}

impl<L: Lattice, E: Energies<L::Atom>> System<L, E> {
    /// The occupants, by slot.
    pub closed spec fn cells(&self) -> Seq<L::Atom> {
        self.lattice.cells()
    }

    /// The energy that is kept up to date, if it has been computed.
    pub closed spec fn cached_energy(&self) -> Option<i64> {
        self.internal_energy
    }

    /// The index of the empty site, if there is one.
    pub closed spec fn vacancy_index(&self) -> Option<L::Index> {
        self.vacancy
    }

    /// The pair energies.
    pub closed spec fn energies(&self) -> E {
        self.bond_energies
    }

    /// The energy of the lattice, every bond counted once.
    pub open spec fn total_energy(&self) -> int {
        total::<L>(pair_energy(self.energies()), self.cells())
    }

    /// Whether the lattice and the energies are usable.
    pub closed spec fn parts_ok(&self) -> bool {
        self.lattice.well_formed() && self.bond_energies.well_formed()
    }

    /// What holds of every system between calls: the kept energy is the energy of the
    /// lattice, and at most one site is empty, the recorded one.
    pub open spec fn well_formed(&self) -> bool {
        &&& self.parts_ok()
        &&& self.cells().len() == L::sites()
        &&& L::shape_ok()
        &&& self.energies().well_formed()
        &&& (self.cached_energy() matches Some(e) ==> e == self.total_energy())
        &&& settled::<L>(self.cells(), self.vacancy_index())
    }
}

/// The pair energies of a usable table are the same in either order.
pub proof fn lemma_pair_energy_symmetric<A: RandAtom, E: Energies<A>>(table: E)
    requires
        table.well_formed(),
    ensures
        symmetric(pair_energy::<A, E>(table)),
{
    let e = pair_energy::<A, E>(table);
    assert forall|a: A, b: A| #[trigger] e(a, b) == e(b, a) by {
        table.lemma_energy(a, b);
    }
}

/// The energy of a lattice is a 64-bit number, and so is the energy around each site.
pub proof fn lemma_energy_bounds<L: Storage, E: Energies<L::Atom>>(
    table: E,
    c: Seq<L::Atom>,
    s: int,
)
    requires
        L::shape_ok(),
        table.well_formed(),
    ensures
        -0x7fff_ffff_8000_0000 <= total::<L>(pair_energy(table), c) <= 0x7fff_ffff_8000_0000,
        -0x7fff_ffff_8000_0000 <= around::<L>(pair_energy(table), c, s) <= 0x7fff_ffff_8000_0000,
        L::degree() <= u32::MAX,
{
    let e = pair_energy::<L::Atom, E>(table);
    let n = L::sites() as int;
    let deg = L::degree() as int;
    let unit = 0x8000_0000int;
    L::lemma_shape();
    assert(deg <= n * deg) by (nonlinear_arith)
        requires
            n >= 1,
            deg >= 0,
    ;
    let here = |k: int| bond_term::<L>(e, c, k, s);
    assert forall|k: int| 0 <= k < deg implies -unit <= #[trigger] here(k) <= unit by {
        table.lemma_energy(c[s], c[L::hop(k, s)]);
    }
    lemma_sum_bounds(here, -unit, unit, deg);
    assert(deg * unit <= 0xffff_ffff * unit && deg * -unit >= 0xffff_ffff * -unit)
        by (nonlinear_arith)
        requires
            0 <= deg <= 0xffff_ffff,
            unit == 0x8000_0000,
    ;
    let by_hop = |k: int| if L::forward(k) { along::<L>(e, c, k) } else { 0 };
    assert forall|k: int| 0 <= k < deg implies n * -unit <= #[trigger] by_hop(k) <= n * unit by {
        let terms = |t: int| bond_term::<L>(e, c, k, t);
        assert forall|t: int| 0 <= t < n implies -unit <= #[trigger] terms(t) <= unit by {
            table.lemma_energy(c[t], c[L::hop(k, t)]);
        }
        lemma_sum_bounds(terms, -unit, unit, n);
        assert(n * -unit <= 0 <= n * unit) by (nonlinear_arith)
            requires
                n >= 0,
                unit == 0x8000_0000,
        ;
    }
    lemma_sum_bounds(by_hop, n * -unit, n * unit, deg);
    assert(deg * (n * unit) <= 0xffff_ffff * unit && deg * (n * -unit) >= 0xffff_ffff * -unit)
        by (nonlinear_arith)
        requires
            0 <= n * deg <= 0xffff_ffff,
            unit == 0x8000_0000,
    ;
}

impl<L: Lattice, E: Energies<L::Atom>> System<L, E> where L::Index: Copy {
    /// A lattice whose every site holds a species drawn by `rng`: with the weights of
    /// `concentration`, or each species with the same chance where none is given.
    fn sampled(
        rng: &mut MyRng,
        concentration: Option<<L::Atom as RandAtom>::Concentration>,
    ) -> (grid: L)
        requires
            L::shape_ok(),
            concentration matches Some(cs) ==> <L::Atom as RandAtom>::drawable(cs),
            concentration is None ==> <L::Atom as RandAtom>::inhabited(),
        ensures
            grid.well_formed(),
            forall|s: int| 0 <= s < grid.cells().len() ==> (#[trigger] grid.cells()[s]).is_species(),
            concentration matches Some(cs) ==> forall|s: int|
                0 <= s < grid.cells().len() ==> <L::Atom as RandAtom>::drawn_from(
                    cs,
                    #[trigger] grid.cells()[s],
                ),
    {
        let mut grid = L::fill_value(<L::Atom as RandAtom>::vacancy());
        let idxs = grid.all_idxs();
        proof {
            grid.lemma_well_formed();
        }
        let mut i: usize = 0;
        while i < idxs.len()
            invariant
                L::shape_ok(),
                concentration matches Some(cs) ==> <L::Atom as RandAtom>::drawable(cs),
                concentration is None ==> <L::Atom as RandAtom>::inhabited(),
                grid.well_formed(),
                grid.cells().len() == L::sites(),
                idxs@.len() == L::sites(),
                forall|s: int| 0 <= s < idxs@.len() ==> idxs@[s] == L::index_at(s),
                0 <= i <= idxs@.len(),
                forall|s: int| 0 <= s < i ==> (#[trigger] grid.cells()[s]).is_species(),
                concentration matches Some(cs) ==> forall|s: int|
                    0 <= s < i ==> <L::Atom as RandAtom>::drawn_from(cs, #[trigger] grid.cells()[s]),
            decreases idxs@.len() - i,
        {
            let atom = match concentration {
                Some(cs) => <L::Atom as RandAtom>::with_concentration(rng, cs),
                None => <L::Atom as RandAtom>::uniform(rng),
            };
            proof {
                L::lemma_index_at(i as int);
            }
            grid.set(idxs[i], atom);
            proof {
                grid.lemma_well_formed();
            }
            i = i + 1;
        }
        grid
    }

    /// A system on the given lattice, whose every site has to hold a species, with a
    /// generator fixed by `seed` (or seeded by the operating system), with its energy
    /// computed and no vacancy.
    pub fn with_lattice(bond_energies: E, seed: Option<&str>, lattice: L) -> (r: Self)
        requires
            lattice.well_formed(),
            bond_energies.well_formed(),
            forall|s: int|
                0 <= s < lattice.cells().len() ==> (#[trigger] lattice.cells()[s]).is_species(),
        ensures
            r.well_formed(),
            r.energies() == bond_energies,
            r.cells() == lattice.cells(),
            r.vacancy_index() is None,
            r.cached_energy() is Some,
    {
        let rng = new_rng(seed);
        proof {
            lattice.lemma_well_formed();
        }
        let mut obj = Self {
            bond_energies,
            lattice,
            rng,
            internal_energy: None,
            vacancy: None,
        };
        proof {
            assert forall|s: int| 0 <= s < obj.cells().len() implies !(#[trigger] obj.cells()[
                s
            ]).is_vacancy() by {
                <L::Atom as RandAtom>::lemma_bytes(obj.cells()[s], obj.cells()[s]);
            }
        }
        obj.internal_energy();
        obj
    }

    /// A system whose every site holds a species drawn with the weights of `concentration`,
    /// by a generator fixed by `seed` (or seeded by the operating system), with its energy
    /// computed and no vacancy.
    pub fn new(
        bond_energies: E,
        seed: Option<&str>,
        concentration: <L::Atom as RandAtom>::Concentration,
    ) -> (r: Self)
        requires
            L::shape_ok(),
            bond_energies.well_formed(),
            <L::Atom as RandAtom>::drawable(concentration),
        ensures
            r.well_formed(),
            r.energies() == bond_energies,
            r.vacancy_index() is None,
            r.cached_energy() is Some,
            forall|s: int| 0 <= s < r.cells().len() ==> (#[trigger] r.cells()[s]).is_species(),
            forall|s: int|
                0 <= s < r.cells().len() ==> <L::Atom as RandAtom>::drawn_from(
                    concentration,
                    #[trigger] r.cells()[s],
                ),
    {
        Self::sample(bond_energies, seed, Some(concentration))
    }

    /// As `new`, and with every species drawn with the same chance where no concentration
    /// is given.
    pub fn sample(
        bond_energies: E,
        seed: Option<&str>,
        concentration: Option<<L::Atom as RandAtom>::Concentration>,
    ) -> (r: Self)
        requires
            L::shape_ok(),
            bond_energies.well_formed(),
            concentration matches Some(cs) ==> <L::Atom as RandAtom>::drawable(cs),
            concentration is None ==> <L::Atom as RandAtom>::inhabited(),
        ensures
            r.well_formed(),
            r.energies() == bond_energies,
            r.vacancy_index() is None,
            r.cached_energy() is Some,
            forall|s: int| 0 <= s < r.cells().len() ==> (#[trigger] r.cells()[s]).is_species(),
            concentration matches Some(cs) ==> forall|s: int|
                0 <= s < r.cells().len() ==> <L::Atom as RandAtom>::drawn_from(
                    cs,
                    #[trigger] r.cells()[s],
                ),
    {
        let mut rng = new_rng(seed);
        let grid = Self::sampled(&mut rng, concentration);
        proof {
            grid.lemma_well_formed();
        }
        let mut obj = Self {
            bond_energies,
            lattice: grid,
            rng,
            internal_energy: None,
            vacancy: None,
        };
        proof {
            assert forall|s: int| 0 <= s < obj.cells().len() implies !(#[trigger] obj.cells()[
                s
            ]).is_vacancy() by {
                <L::Atom as RandAtom>::lemma_bytes(obj.cells()[s], obj.cells()[s]);
            }
        }
        obj.internal_energy();
        obj
    }

    /// The lattice.
    pub fn lattice(&self) -> (r: &L)
        ensures
            r.cells() == self.cells(),
            self.well_formed() ==> r.well_formed(),
    {
        &self.lattice
    }

    /// The index of the empty site, if there is one.
    pub fn vacancy(&self) -> (r: Option<L::Index>)
        ensures
            r == self.vacancy_index(),
    {
        self.vacancy
    }

    /// Two sites, each drawn with equal chance among all sites.
    pub fn draw_pair(&mut self) -> (r: (L::Index, L::Index))
        requires
            old(self).well_formed(),
        ensures
            final(self).well_formed(),
            final(self).cells() == old(self).cells(),
            final(self).cached_energy() == old(self).cached_energy(),
            final(self).vacancy_index() == old(self).vacancy_index(),
            final(self).energies() == old(self).energies(),
            r.0 == L::index_at(L::slot(r.0)),
            r.1 == L::index_at(L::slot(r.1)),
    {
        self.lattice.choose_idxs_uniformly(&mut self.rng)
    }

    /// The number of sites.
    pub fn tot_sites(&self) -> (r: usize)
        requires
            self.well_formed(),
        ensures
            r == L::sites(),
    {
        self.lattice.tot_sites()
    }

    /// The energy of the lattice. It is computed from all bonds where it is not at hand, and
    /// kept from then on.
    pub fn internal_energy(&mut self) -> (energy: i64)
        requires
            old(self).well_formed(),
        ensures
            final(self).well_formed(),
            energy == old(self).total_energy(),
            final(self).cached_energy() == Some(energy),
            final(self).cells() == old(self).cells(),
            final(self).vacancy_index() == old(self).vacancy_index(),
            final(self).energies() == old(self).energies(),
    {
        if let Some(energy) = self.internal_energy {
            energy
        } else {
            let pairs: PairCounts<L::Atom> = self.lattice.all_neighbors();
            let ghost e = pair_energy::<L::Atom, E>(self.bond_energies);
            let ghost list = pairs@;
            let ghost terms = |i: int| e(list[i].0.0, list[i].0.1) * list[i].1;
            let mut acc: i128 = 0;
            let mut i: usize = 0;
            while i < pairs.len()
                invariant
                    self.bond_energies.well_formed(),
                    list == pairs@,
                    e == pair_energy::<L::Atom, E>(self.bond_energies),
                    terms == |i: int| e(list[i].0.0, list[i].0.1) * list[i].1,
                    0 <= i <= list.len(),
                    acc == sum(terms, i as int),
                    i * -0x8000_0000_0000_0000 <= acc <= i * 0x8000_0000_0000_0000,
                decreases list.len() - i,
            {
                let pair: (L::Atom, L::Atom) = pairs[i].0;
                let count: u32 = pairs[i].1;
                let each: i32 = self.bond_energies.get_interaction_energy(pair.0, pair.1);
                assert(-0x8000_0000_0000_0000 <= (each as int) * (count as int)
                    <= 0x8000_0000_0000_0000) by (nonlinear_arith)
                    requires
                        -0x8000_0000 <= each <= 0x7fff_ffff,
                        0 <= count <= 0xffff_ffff,
                ;
                assert((i + 1) * 0x8000_0000_0000_0000 == i * 0x8000_0000_0000_0000
                    + 0x8000_0000_0000_0000) by (nonlinear_arith);
                assert((i + 1) * -0x8000_0000_0000_0000 == i * -0x8000_0000_0000_0000
                    - 0x8000_0000_0000_0000) by (nonlinear_arith);
                assert(i * 0x8000_0000_0000_0000 <= 0xffff_ffff_ffff_ffff * 0x8000_0000_0000_0000
                    && i * -0x8000_0000_0000_0000 >= 0xffff_ffff_ffff_ffff
                    * -0x8000_0000_0000_0000) by (nonlinear_arith)
                    requires
                        0 <= i <= 0xffff_ffff_ffff_ffff,
                ;
                acc = acc + (each as i128) * (count as i128);
                i = i + 1;
            }
            proof {
                self.lattice.lemma_well_formed();
                lemma_energy_bounds::<L, E>(self.bond_energies, self.lattice.cells(), 0);
                assert(weighted(list, e) == total::<L>(e, self.lattice.cells()));
            }
            let energy: i64 = acc as i64;
            self.internal_energy = Some(energy);
            energy
        }
    }

    /// The energy of the bonds between the site of `idx` and its neighbours.
    fn energies_around(&self, idx: L::Index) -> (r: i64)
        requires
            self.parts_ok(),
            L::shape_ok(),
            L::steppable(idx),
        ensures
            r == around::<L>(pair_energy(self.energies()), self.cells(), L::slot(idx)),
    {
        let neighbors = self.lattice.all_neighbors_to(idx);
        let here = self.lattice.get(idx);
        let ghost e = pair_energy::<L::Atom, E>(self.bond_energies);
        let ghost c = self.lattice.cells();
        let ghost s = L::slot(idx);
        let ghost terms = |k: int| bond_term::<L>(e, c, k, s);
        proof {
            L::lemma_shape();
            L::lemma_slot(idx);
            L::lemma_neighbors(idx, 0);
            lemma_energy_bounds::<L, E>(self.bond_energies, c, s);
        }
        let mut acc: i64 = 0;
        let mut k: usize = 0;
        while k < neighbors.len()
            invariant
                self.parts_ok(),
                L::shape_ok(),
                L::steppable(idx),
                neighbors@ == L::neighbors(idx),
                neighbors@.len() == L::degree(),
                L::degree() <= u32::MAX,
                here == c[s],
                e == pair_energy::<L::Atom, E>(self.bond_energies),
                c == self.lattice.cells(),
                s == L::slot(idx),
                terms == |k: int| bond_term::<L>(e, c, k, s),
                0 <= k <= neighbors@.len(),
                acc == sum(terms, k as int),
                k * -0x8000_0000 <= acc <= k * 0x8000_0000,
            decreases neighbors@.len() - k,
        {
            proof {
                L::lemma_neighbors(idx, k as int);
            }
            let there = self.lattice.get(neighbors[k]);
            let each: i32 = self.bond_energies.get_interaction_energy(here, there);
            assert((k + 1) * 0x8000_0000 == k * 0x8000_0000 + 0x8000_0000
                && (k + 1) * -0x8000_0000 == k * -0x8000_0000 - 0x8000_0000) by (nonlinear_arith);
            assert(k * 0x8000_0000 <= 0xffff_ffff * 0x8000_0000 && k * -0x8000_0000 >= 0xffff_ffff
                * -0x8000_0000) by (nonlinear_arith)
                requires
                    0 <= k <= 0xffff_ffff,
            ;
            acc = acc + each as i64;
            k = k + 1;
        }
        acc
    }
}

/// What exchanging the occupants of slots `p` and `q` adds to the energy of the lattice.
pub open spec fn swap_delta<L: Storage, E: Energies<L::Atom>>(
    table: E,
    c: Seq<L::Atom>,
    p: int,
    q: int,
) -> int {
    total::<L>(pair_energy(table), swapped(c, p, q)) - total::<L>(pair_energy(table), c)
}

impl<L: Lattice, E: Energies<L::Atom>> System<L, E> where L::Index: Copy {
    /// What exchanging the occupants of the sites of `idx_1` and `idx_2` would add to the
    /// energy.
    pub open spec fn delta_of_swap(&self, idx_1: L::Index, idx_2: L::Index) -> int {
        swap_delta::<L, E>(self.energies(), self.cells(), L::slot(idx_1), L::slot(idx_2))
    }

    /// Proposes to exchange the occupants of two sites and decides on it once. Nothing is
    /// proposed where both sites hold the same occupant. The exchange is made where the
    /// energy it adds is affordable; the kept energy then changes by that amount, and a
    /// vacancy that changed place is recorded at its new site. Otherwise nothing changes.
    pub fn exchange(&mut self, idx_1: L::Index, idx_2: L::Index, barrier: i64) -> (r: Option<bool>)
        requires
            old(self).well_formed(),
        ensures
            final(self).well_formed(),
            final(self).energies() == old(self).energies(),
            old(self).cells()[L::slot(idx_1)] == old(self).cells()[L::slot(idx_2)] <==> r is None,
            r matches Some(accepted) ==> accepted == affordable(
                old(self).delta_of_swap(idx_1, idx_2),
                barrier as int,
            ),
            r == Some(true) ==> {
                &&& final(self).cells() == swapped(
                    old(self).cells(),
                    L::slot(idx_1),
                    L::slot(idx_2),
                )
                &&& final(self).total_energy() == old(self).total_energy() + old(self).delta_of_swap(idx_1, idx_2)
                &&& final(self).cached_energy() is Some <==> old(self).cached_energy() is Some
            },
            r != Some(true) ==> {
                &&& final(self).cells() == old(self).cells()
                &&& final(self).cached_energy() == old(self).cached_energy()
                &&& final(self).vacancy_index() == old(self).vacancy_index()
            },
            final(self).vacancy_index() is Some <==> old(self).vacancy_index() is Some,
    {
        let ghost c = self.lattice.cells();
        let ghost e = pair_energy::<L::Atom, E>(self.bond_energies);
        let ghost p = L::slot(idx_1);
        let ghost q = L::slot(idx_2);
        proof {
            L::lemma_slot(idx_1);
            L::lemma_slot(idx_2);
            L::lemma_index_at(p);
            L::lemma_index_at(q);
        }
        let first = self.lattice.reduce_index(idx_1);
        let second = self.lattice.reduce_index(idx_2);
        let atom_1 = self.lattice.get(first);
        let atom_2 = self.lattice.get(second);
        proof {
            <L::Atom as RandAtom>::lemma_bytes(atom_1, atom_2);
        }
        if atom_1.value() == atom_2.value() {
            return None;
        }
        let before_1 = self.energies_around(first);
        let before_2 = self.energies_around(second);
        self.lattice.swap_vals(first, second);
        let after_1 = self.energies_around(first);
        let after_2 = self.energies_around(second);
        let delta: i128 = (after_1 as i128 + after_2 as i128) - (before_1 as i128
            + before_2 as i128);
        let ghost d = swapped(c, p, q);
        proof {
            lemma_pair_energy_symmetric::<L::Atom, E>(self.bond_energies);
            lemma_swap_energy::<L>(e, c, p, q);
            lemma_energy_bounds::<L, E>(self.bond_energies, d, 0);
            lemma_energy_bounds::<L, E>(self.bond_energies, c, 0);
        }
        if delta <= 0 || delta < barrier as i128 {
            let empty = <L::Atom as RandAtom>::vacancy();
            proof {
                <L::Atom as RandAtom>::lemma_bytes(atom_1, empty);
                <L::Atom as RandAtom>::lemma_bytes(atom_2, empty);
            }
            if atom_1.value() == empty.value() {
                self.vacancy = Some(second);
            } else if atom_2.value() == empty.value() {
                self.vacancy = Some(first);
            }
            self.internal_energy = match self.internal_energy {
                Some(energy) => Some((energy as i128 + delta) as i64),
                None => None,
            };
            proof {
                assert(settled::<L>(d, self.vacancy));
            }
            Some(true)
        } else {
            self.lattice.swap_vals(first, second);
            proof {
                assert(self.lattice.cells() =~= c);
            }
            Some(false)
        }
    }

    /// What one proposal to exchange the occupants of slots `p` and `q` leads to, from the
    /// occupants `c`: nothing is proposed where both are the same; otherwise the exchange is
    /// made exactly where the energy it adds is affordable, and nothing changes where it is
    /// not made.
    pub open spec fn swap_outcome(
        &self,
        table: E,
        c: Seq<L::Atom>,
        p: int,
        q: int,
        barrier: int,
        r: Option<bool>,
    ) -> bool {
        &&& 0 <= p < L::sites()
        &&& 0 <= q < L::sites()
        &&& r == if c[p] == c[q] {
            None
        } else {
            Some(affordable(swap_delta::<L, E>(table, c, p, q), barrier))
        }
        &&& self.cells() == if r == Some(true) {
            swapped(c, p, q)
        } else {
            c
        }
    }

    /// Draws two sites and proposes to exchange their occupants, as `exchange` does: for the
    /// two sites drawn, the result and the lattice afterwards are those of `exchange`.
    pub fn monte_carlo_swap(&mut self, barrier: i64) -> (r: Option<bool>)
        requires
            old(self).well_formed(),
        ensures
            final(self).well_formed(),
            final(self).energies() == old(self).energies(),
            final(self).vacancy_index() is Some <==> old(self).vacancy_index() is Some,
            exists|p: int, q: int| #[trigger]
                final(self).swap_outcome(
                    old(self).energies(),
                    old(self).cells(),
                    p,
                    q,
                    barrier as int,
                    r,
                ),
            r == Some(true) ==> (final(self).cached_energy() is Some <==> old(self).cached_energy() is Some),
            r != Some(true) ==> {
                &&& final(self).cells() == old(self).cells()
                &&& final(self).cached_energy() == old(self).cached_energy()
                &&& final(self).vacancy_index() == old(self).vacancy_index()
            },
    {
        let pair = self.lattice.choose_idxs_uniformly(&mut self.rng);
        proof {
            L::lemma_slot(pair.0);
            L::lemma_slot(pair.1);
        }
        let r = self.exchange(pair.0, pair.1, barrier);
        proof {
            assert(self.swap_outcome(
                old(self).energies(),
                old(self).cells(),
                L::slot(pair.0),
                L::slot(pair.1),
                barrier as int,
                r,
            ));
        }
        r
    }
}

/// The number of empty sites among `cells`.
pub open spec fn vacant_sites<A: RandAtom>(cells: Seq<A>) -> int {
    sum(|s: int| if cells[s].is_vacancy() { 1int } else { 0int }, cells.len() as int)
}

impl<L: Lattice, E: Energies<L::Atom>> System<L, E> where L::Index: Copy {
    /// In every system the kept energy, where there is one, is the energy computed from all
    /// bonds of the lattice.
    pub proof fn lemma_energy_kept(&self)
        requires
            self.well_formed(),
        ensures
            self.cached_energy() matches Some(e) ==> e == total::<L>(
                pair_energy(self.energies()),
                self.cells(),
            ),
    {
    }

    /// In every system exactly one site is empty once a vacancy is recorded, and none before.
    pub proof fn lemma_single_vacancy(&self)
        requires
            self.well_formed(),
        ensures
            vacant_sites(self.cells()) == if self.vacancy_index() is Some { 1int } else { 0int },
            self.vacancy_index() matches Some(v) ==> self.cells()[L::slot(v)].is_vacancy(),
    {
        let c = self.cells();
        let marks = |s: int| if c[s].is_vacancy() { 1int } else { 0int };
        match self.vacancy_index() {
            Some(v) => {
                L::lemma_slot(v);
                crate::sums::lemma_sum_point(marks, L::slot(v), c.len() as int);
            },
            None => {
                crate::sums::lemma_sum_zero(marks, c.len() as int);
            },
        }
    }

    /// What one proposal to move the vacancy from slot `p` to slot `q` leads to, from the
    /// occupants `c` with the vacancy at `p`: the move is made exactly where the energy it
    /// adds is affordable, and otherwise nothing changes.
    pub open spec fn hop_outcome(
        &self,
        table: E,
        c: Seq<L::Atom>,
        p: int,
        q: int,
        barrier: int,
        accepted: bool,
    ) -> bool {
        &&& accepted == affordable(swap_delta::<L, E>(table, c, p, q), barrier)
        &&& self.cells() == if accepted {
            swapped(c, p, q)
        } else {
            c
        }
        &&& self.vacancy_index() matches Some(w) && L::slot(w) == if accepted {
            q
        } else {
            p
        }
    }

    /// Empties the site of `idx` and records it as the vacancy. The energy is computed anew.
    pub fn place_vacancy(&mut self, idx: L::Index)
        requires
            old(self).well_formed(),
            old(self).vacancy_index() is None,
        ensures
            final(self).well_formed(),
            final(self).energies() == old(self).energies(),
            final(self).vacancy_index() == Some(L::index_at(L::slot(idx))),
            final(self).cells().len() == old(self).cells().len(),
            forall|s: int|
                0 <= s < old(self).cells().len() && s != L::slot(idx) ==> final(self).cells()[s]
                    == old(self).cells()[s],
            final(self).cells()[L::slot(idx)].is_vacancy(),
            final(self).cached_energy() is Some,
    {
        proof {
            L::lemma_slot(idx);
            L::lemma_index_at(L::slot(idx));
        }
        let site = self.lattice.reduce_index(idx);
        self.lattice.set(site, <L::Atom as RandAtom>::vacancy());
        self.vacancy = Some(site);
        self.internal_energy = None;
        proof {
            assert forall|s: int| 0 <= s < self.cells().len() implies ((#[trigger] self.cells()[
                s
            ]).is_vacancy() <==> s == L::slot(site)) by {
                <L::Atom as RandAtom>::lemma_bytes(self.cells()[s], self.cells()[s]);
            }
        }
        self.internal_energy();
    }

    /// Proposes to move the vacancy to the site of `other` and decides on it once. The move
    /// is made where the energy it adds is affordable: the occupant of that site takes the
    /// place of the vacancy, and the kept energy changes by that amount. Otherwise nothing
    /// changes.
    pub fn hop_vacancy(&mut self, other: L::Index, barrier: i64) -> (accepted: bool)
        requires
            old(self).well_formed(),
            old(self).vacancy_index() is Some,
        ensures
            final(self).well_formed(),
            final(self).energies() == old(self).energies(),
            final(self).hop_outcome(
                old(self).energies(),
                old(self).cells(),
                L::slot(old(self).vacancy_index()->0),
                L::slot(other),
                barrier as int,
                accepted,
            ),
            accepted ==> final(self).vacancy_index() == Some(L::index_at(L::slot(other))),
            final(self).cached_energy() is Some <==> old(self).cached_energy() is Some,
            !accepted ==> final(self).vacancy_index() == old(self).vacancy_index()
                && final(self).cached_energy() == old(self).cached_energy(),
    {
        let from = match self.vacancy {
            Some(v) => v,
            None => other,
        };
        let ghost c = self.lattice.cells();
        let ghost e = pair_energy::<L::Atom, E>(self.bond_energies);
        let ghost p = L::slot(from);
        let ghost q = L::slot(other);
        proof {
            L::lemma_slot(from);
            L::lemma_slot(other);
            L::lemma_index_at(p);
            L::lemma_index_at(q);
        }
        let target = self.lattice.reduce_index(other);
        let before = self.energies_around(target);
        self.lattice.swap_vals(from, target);
        let after = self.energies_around(from);
        let delta: i128 = after as i128 - before as i128;
        let ghost d = swapped(c, p, q);
        proof {
            lemma_pair_energy_symmetric::<L::Atom, E>(self.bond_energies);
            lemma_energy_bounds::<L, E>(self.bond_energies, d, 0);
            lemma_energy_bounds::<L, E>(self.bond_energies, c, 0);
            assert forall|b: L::Atom| #[trigger] e(c[p], b) == 0 by {
                self.bond_energies.lemma_energy(c[p], b);
            }
            lemma_inert_site::<L>(e, c, p);
            if p != q {
                lemma_swap_energy::<L>(e, c, p, q);
                assert(d[q] == c[p]);
                lemma_inert_site::<L>(e, d, q);
            } else {
                assert(d =~= c);
            }
        }
        if delta <= 0 || delta < barrier as i128 {
            self.vacancy = Some(target);
            self.internal_energy = match self.internal_energy {
                Some(energy) => Some((energy as i128 + delta) as i64),
                None => None,
            };
            proof {
                assert(settled::<L>(d, self.vacancy));
            }
            true
        } else {
            self.lattice.swap_vals(from, target);
            proof {
                assert(self.lattice.cells() =~= c);
            }
            false
        }
    }

    /// Moves the vacancy by at most one site: one of its neighbours is drawn, and the move
    /// to it is proposed and decided once, as `hop_vacancy` does. On the first call a site
    /// is drawn and emptied before that, as `place_vacancy` does.
    pub fn move_vacancy(&mut self, barrier: i64) -> (accepted: bool)
        requires
            old(self).well_formed(),
        ensures
            final(self).well_formed(),
            final(self).energies() == old(self).energies(),
            final(self).vacancy_index() is Some,
            old(self).cached_energy() is Some ==> final(self).cached_energy() is Some,
            old(self).vacancy_index() matches Some(v) ==> exists|k: int|
                0 <= k < L::degree() && #[trigger] final(self).hop_outcome(
                    old(self).energies(),
                    old(self).cells(),
                    L::slot(v),
                    L::hop(k, L::slot(v)),
                    barrier as int,
                    accepted,
                ),
            old(self).vacancy_index() matches Some(v) ==> (!accepted ==> final(self).vacancy_index() == old(self).vacancy_index() && final(self).cached_energy() == old(self).cached_energy()),
            old(self).vacancy_index() is None ==> exists|start: int, k: int|
                0 <= start < L::sites() && 0 <= k < L::degree() && #[trigger] final(self).hop_outcome(
                    old(self).energies(),
                    old(self).cells().update(start, final(self).cells()[L::slot(
                        final(self).vacancy_index()->0,
                    )]),
                    start,
                    L::hop(k, start),
                    barrier as int,
                    accepted,
                ),
    {
        if self.vacancy.is_none() {
            let idx = self.lattice.random_idx(&mut self.rng);
            self.place_vacancy(idx);
        }
        let from = match self.vacancy {
            Some(v) => v,
            None => self.lattice.random_idx(&mut self.rng),
        };
        proof {
            L::lemma_shape();
            L::lemma_slot(from);
            L::lemma_index_at(L::slot(from));
        }
        let neighbors = self.lattice.all_neighbors_to(from);
        let ghost mid = self.cells();
        match choose_one(&mut self.rng, &neighbors) {
            Some(other) => {
                let ghost k = choose|k: int| 0 <= k < neighbors@.len() && neighbors@[k] == other;
                proof {
                    L::lemma_neighbors(from, 0);
                    L::lemma_neighbors(from, k);
                }
                let accepted = self.hop_vacancy(other, barrier);
                proof {
                    if old(self).vacancy_index() is None {
                        let w = self.vacancy_index()->0;
                        L::lemma_slot(w);
                        <L::Atom as RandAtom>::lemma_bytes(
                            self.cells()[L::slot(w)],
                            mid[L::slot(from)],
                        );
                        assert(mid =~= old(self).cells().update(
                            L::slot(from),
                            self.cells()[L::slot(w)],
                        ));
                        assert(self.hop_outcome(
                            old(self).energies(),
                            old(self).cells().update(L::slot(from), self.cells()[L::slot(w)]),
                            L::slot(from),
                            L::hop(k, L::slot(from)),
                            barrier as int,
                            accepted,
                        ));
                    } else {
                        assert(self.hop_outcome(
                            old(self).energies(),
                            old(self).cells(),
                            L::slot(from),
                            L::hop(k, L::slot(from)),
                            barrier as int,
                            accepted,
                        ));
                    }
                }
                accepted
            },
            None => {
                proof {
                    L::lemma_neighbors(from, 0);
                }
                false
            },
        }
    }
}

impl<L: GifFrame, E: Energies<L::Atom>> System<L, E> {
    /// The lattice as a frame of pixels.
    pub fn get_frame(&self) -> (r: Frame)
        requires
            self.well_formed(),
            L::frame_width() <= u16::MAX,
            L::frame_height() <= u16::MAX,
        ensures
            r.width == L::frame_width(),
            r.height == L::frame_height(),
            r.pixels@.len() == L::frame_width() * L::frame_height(),
            r.pixels@.len() <= self.cells().len(),
            forall|i: int|
                0 <= i < r.pixels@.len() ==> #[trigger] r.pixels@[i] == self.cells()[i].byte(),
    {
        self.lattice.get_frame()
    }
}

impl<L: Lattice, E: Energies<L::Atom>> System<L, E> where
    <L as Storage>::Atom: Mark,
    <L as Storage>::Index: Copy,
 {
    /// No occupant of a system carries a mark.
    proof fn lemma_unmarked(&self)
        requires
            self.well_formed(),
        ensures
            forall|s: int| 0 <= s < self.cells().len() ==> !(#[trigger] self.cells()[s]).marked(),
    {
        assert forall|s: int| 0 <= s < self.cells().len() implies !(#[trigger] self.cells()[
            s
        ]).marked() by {
            <L::Atom as Mark>::lemma_marks(self.cells()[s]);
        }
    }

    /// The distribution of cluster sizes of every species, in the order of `all_atoms`.
    pub fn count_all_clusters(&mut self) -> (r: Vec<ClusterDistribution>)
        requires
            old(self).well_formed(),
            <L::Atom as RandAtom>::inhabited(),
        ensures
            final(self).well_formed(),
            final(self).cells() == old(self).cells(),
            final(self).cached_energy() == old(self).cached_energy(),
            final(self).vacancy_index() == old(self).vacancy_index(),
            final(self).energies() == old(self).energies(),
            r@.len() == <L::Atom as RandAtom>::species().len(),
            forall|i: int|
                0 <= i < r@.len() ==> total_weight((#[trigger] r@[i])@, true) == matching(
                    old(self).cells(),
                    <L::Atom as RandAtom>::species()[i],
                ) && !r@[i]@.contains_key(0),
            forall|i: int, size: u32|
                0 <= i < r@.len() ==> multiplicity(r@[i]@, size) == #[trigger] clusters_of_size::<
                    L,
                >(old(self).cells(), <L::Atom as RandAtom>::species()[i], size as int),
            forall|i: int, size: u32|
                0 <= i < r@.len() && #[trigger] r@[i]@.contains_key(size) ==> r@[i]@[size] > 0,
    {
        let atoms = <L::Atom as RandAtom>::all_atoms();
        let mut out: Vec<ClusterDistribution> = Vec::new();
        let mut i: usize = 0;
        while i < atoms.len()
            invariant
                self.well_formed(),
                self.cells() == old(self).cells(),
                self.cached_energy() == old(self).cached_energy(),
                self.vacancy_index() == old(self).vacancy_index(),
                self.energies() == old(self).energies(),
                atoms@ == <L::Atom as RandAtom>::species(),
                0 <= i <= atoms@.len(),
                out@.len() == i,
                forall|j: int|
                    0 <= j < i ==> total_weight((#[trigger] out@[j])@, true) == matching(
                        old(self).cells(),
                        atoms@[j],
                    ) && !out@[j]@.contains_key(0),
                forall|j: int, size: u32|
                    0 <= j < i ==> multiplicity(out@[j]@, size) == #[trigger] clusters_of_size::<
                        L,
                    >(old(self).cells(), atoms@[j], size as int),
                forall|j: int, size: u32|
                    0 <= j < i && #[trigger] out@[j]@.contains_key(size) ==> out@[j]@[size] > 0,
            decreases atoms@.len() - i,
        {
            let found = self.count_clusters(atoms[i]);
            out.push(found);
            i = i + 1;
        }
        out
    }

    /// How many clusters of each size the sites that hold `atom` form. The system is the
    /// same after the call as before it.
    pub fn count_clusters(&mut self, atom: L::Atom) -> (r: ClusterDistribution)
        requires
            old(self).well_formed(),
        ensures
            final(self).well_formed(),
            final(self).cells() == old(self).cells(),
            final(self).cached_energy() == old(self).cached_energy(),
            final(self).vacancy_index() == old(self).vacancy_index(),
            final(self).energies() == old(self).energies(),
            total_weight(r@, true) == matching(old(self).cells(), atom),
            !r@.contains_key(0),
            forall|size: u32|
                multiplicity(r@, size) == #[trigger] clusters_of_size::<L>(
                    old(self).cells(),
                    atom,
                    size as int,
                ),
            forall|size: u32| #[trigger] r@.contains_key(size) ==> r@[size] > 0,
    {
        proof {
            self.lemma_unmarked();
        }
        self.lattice.count_clusters(atom)
    }
}

} // verus!
