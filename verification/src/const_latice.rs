use crate::array_2d::Array2d;
use crate::atoms::RandAtom;
use crate::energy::Energies;
use crate::lattice::swapped;
use crate::system::{swap_delta, System};
use vstd::prelude::*;

verus! {

/// A 2D lattice gas at zero temperature: exchanges of two occupants are made only where
/// they do not raise the energy.
pub struct ArrayLatice<A: Copy + RandAtom, const WIDTH: usize, const HEIGHT: usize, E: Energies<A>> {
    system: System<Array2d<A, WIDTH, HEIGHT>, E>,
}

impl<A: Copy + RandAtom, const WIDTH: usize, const HEIGHT: usize, E: Energies<A>> ArrayLatice<
    A,
    WIDTH,
    HEIGHT,
    E,
> {
    /// The occupants, row by row.
    pub closed spec fn cells(&self) -> Seq<A> {
        self.system.cells()
    }

    /// The pair energies.
    pub closed spec fn energies(&self) -> E {
        self.system.energies()
    }

    /// The energy of the lattice, every bond counted once.
    pub closed spec fn total_energy(&self) -> int {
        self.system.total_energy()
    }

    /// The energy that is kept up to date, if it has been computed.
    pub closed spec fn cached_energy(&self) -> Option<i64> {
        self.system.cached_energy()
    }

    /// What holds of every such lattice between calls.
    pub closed spec fn well_formed(&self) -> bool {
        self.system.well_formed() && self.system.vacancy_index() is None
    }

    /// The energy that is kept is the energy of the lattice.
    pub proof fn lemma_energy_kept(&self)
        requires
            self.well_formed(),
        ensures
            self.cached_energy() matches Some(e) ==> e == self.total_energy(),
    {
    }

    /// A lattice whose every site holds a species drawn with the weights of
    /// `concentration`, or each species with the same chance where none is given.
    pub fn new(
        energies: E,
        seed: Option<&str>,
        concentration: Option<<A as RandAtom>::Concentration>,
    ) -> (r: Self)
        requires
            Array2d::<A, WIDTH, HEIGHT>::dims_ok(),
            energies.well_formed(),
            concentration matches Some(cs) ==> <A as RandAtom>::drawable(cs),
            concentration is None ==> <A as RandAtom>::inhabited(),
        ensures
            r.well_formed(),
            r.energies() == energies,
            r.cells().len() == WIDTH * HEIGHT,
            forall|s: int| 0 <= s < r.cells().len() ==> (#[trigger] r.cells()[s]).is_species(),
            concentration matches Some(cs) ==> forall|s: int|
                0 <= s < r.cells().len() ==> <A as RandAtom>::drawn_from(
                    cs,
                    #[trigger] r.cells()[s],
                ),
    {
        Self { system: System::sample(energies, seed, concentration) }
    }

    /// The energy of the lattice.
    pub fn tot_energy(&mut self) -> (energy: i64)
        requires
            old(self).well_formed(),
        ensures
            final(self).well_formed(),
            energy == old(self).total_energy(),
            final(self).cells() == old(self).cells(),
            final(self).energies() == old(self).energies(),
            final(self).cached_energy() == Some(energy),
    {
        self.system.internal_energy()
    }

    /// What one attempt to exchange the occupants of slots `p` and `q` leads to, from the
    /// occupants `c`: the exchange is made exactly where it does not raise the energy, and
    /// nothing changes where it is not made.
    pub open spec fn attempt_outcome(
        &self,
        table: E,
        c: Seq<A>,
        p: int,
        q: int,
        swapped_now: bool,
    ) -> bool {
        &&& 0 <= p < WIDTH * HEIGHT
        &&& 0 <= q < WIDTH * HEIGHT
        &&& swapped_now == (swap_delta::<Array2d<A, WIDTH, HEIGHT>, E>(table, c, p, q) <= 0)
        &&& self.cells() == if swapped_now {
            swapped(c, p, q)
        } else {
            c
        }
    }

    /// Exchanges the occupants of the sites of `idx_1` and `idx_2` where that does not raise
    /// the energy; says whether it did. Where it did not, nothing has changed.
    pub fn swap_sites(&mut self, idx_1: (isize, isize), idx_2: (isize, isize)) -> (swapped_now:
        bool)
        requires
            old(self).well_formed(),
        ensures
            final(self).well_formed(),
            final(self).energies() == old(self).energies(),
            final(self).attempt_outcome(
                old(self).energies(),
                old(self).cells(),
                Array2d::<A, WIDTH, HEIGHT>::position(idx_1),
                Array2d::<A, WIDTH, HEIGHT>::position(idx_2),
                swapped_now,
            ),
            final(self).total_energy() <= old(self).total_energy(),
            !swapped_now ==> final(self).cached_energy() == old(self).cached_energy(),
    {
        let ghost c = self.system.cells();
        let ghost p = Array2d::<A, WIDTH, HEIGHT>::position(idx_1);
        let ghost q = Array2d::<A, WIDTH, HEIGHT>::position(idx_2);
        proof {
            Array2d::<A, WIDTH, HEIGHT>::lemma_position(idx_1);
            Array2d::<A, WIDTH, HEIGHT>::lemma_position(idx_2);
        }
        match self.system.exchange(idx_1, idx_2, 0) {
            Some(accepted) => accepted,
            None => {
                proof {
                    assert(swapped(c, p, q) =~= c);
                }
                true
            },
        }
    }

    /// Draws two sites and exchanges their occupants where that does not raise the energy;
    /// says whether it did. Where it did not, nothing has changed.
    pub fn swap_rand(&mut self) -> (swapped_now: bool)
        requires
            old(self).well_formed(),
        ensures
            final(self).well_formed(),
            final(self).energies() == old(self).energies(),
            final(self).total_energy() <= old(self).total_energy(),
            exists|p: int, q: int| #[trigger]
                final(self).attempt_outcome(
                    old(self).energies(),
                    old(self).cells(),
                    p,
                    q,
                    swapped_now,
                ),
            !swapped_now ==> final(self).cells() == old(self).cells() && final(self).cached_energy() == old(self).cached_energy(),
    {
        let pair = self.system.draw_pair();
        let swapped_now = self.swap_sites(pair.0, pair.1);
        proof {
            assert(self.attempt_outcome(
                old(self).energies(),
                old(self).cells(),
                Array2d::<A, WIDTH, HEIGHT>::position(pair.0),
                Array2d::<A, WIDTH, HEIGHT>::position(pair.1),
                swapped_now,
            ));
        }
        swapped_now
    }
}

} // verus!
