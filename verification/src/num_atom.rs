use crate::atoms::{MARK_BIT, Mark, RandAtom};
use crate::energy::Energies;
use crate::rng::{draw_below, MyRng};
use crate::weights::{pick_weighted, total_weight_of, weight_sum};
use vstd::prelude::*;

verus! {

/// The most species that a byte can tell apart beside the vacancy and the mark.
pub const MAX_SPECIES: usize = 64;

/// The byte of an empty site among up to 64 species.
pub const NUM_VACANCY_BYTE: u8 = 0b0100_0000;

/// An occupant of a lattice of `N` species: one of the species `0..N`, or a vacancy.
#[derive(Debug, Hash, PartialEq, Eq, Clone, Copy)]
pub struct NumAtom<const N: usize>(pub u8);

/// The weights of `N` species.
#[derive(Debug, Clone, Copy)]
pub struct NumC<const N: usize> {
    pub weights: [u32; N],
}

impl<const N: usize> NumC<N> {
    /// One weight for each species; they need not sum to anything in particular, but one
    /// of them has to be positive.
    pub fn new(weights: [u32; N]) -> (r: Self)
        requires
            weight_sum(weights@) > 0,
        ensures
            r.weights == weights,
    {
        Self { weights }
    }

    /// The weights, one after another.
    pub fn get_cs(&self) -> (r: Vec<u32>)
        ensures
            r@ == self.weights@,
    {
        let mut out: Vec<u32> = Vec::new();
        let mut i: usize = 0;
        while i < N
            invariant
                0 <= i <= N,
                out@ == self.weights@.take(i as int),
            decreases N - i,
        {
            out.push(self.weights[i]);
            i = i + 1;
            assert(out@ =~= self.weights@.take(i as int));
        }
        assert(self.weights@.take(N as int) =~= self.weights@);
        out
    }
}

impl<const N: usize> NumAtom<N> {
    /// Species `val`, which has to be one of the `N` species.
    pub fn new(val: u8) -> (r: Self)
        requires
            val < N,
            N <= MAX_SPECIES,
        ensures
            r.0 == val,
            r.is_species(),
    {
        Self(val)
    }

    /// The species that a draw below the sum of the weights selects: the one into whose
    /// stretch the draw falls when the weights are laid end to end.
    pub fn pick(cs: NumC<N>, draw: u64) -> (r: Self)
        requires
            1 <= N <= MAX_SPECIES,
            draw < weight_sum(cs.weights@),
        ensures
            r.is_species(),
            crate::weights::falls_on(cs.weights@, draw as int, r.0 as int),
            cs.weights@[r.0 as int] > 0,
    {
        let weights = cs.get_cs();
        let at: usize = pick_weighted(&weights, draw);
        Self(at as u8)
    }
}

impl<const N: usize> RandAtom for NumAtom<N> {
    type Concentration = NumC<N>;

    open spec fn byte(self) -> u8 {
        self.0
    }

    open spec fn is_vacancy(self) -> bool {
        self.0 == NUM_VACANCY_BYTE
    }

    open spec fn is_species(self) -> bool {
        self.0 < N && self.0 < MAX_SPECIES
    }

    open spec fn drawable(cs: NumC<N>) -> bool {
        1 <= N <= MAX_SPECIES && weight_sum(cs.weights@) > 0
    }

    open spec fn drawn_from(cs: NumC<N>, a: Self) -> bool {
        a.0 < N && cs.weights@[a.0 as int] > 0
    }

    open spec fn species() -> Seq<Self> {
        Seq::new(N as nat, |i: int| NumAtom(i as u8))
    }

    open spec fn inhabited() -> bool {
        1 <= N <= MAX_SPECIES
    }

    proof fn lemma_bytes(a: Self, b: Self) {
    }

    fn value(&self) -> (b: u8) {
        self.0
    }

    fn vacancy() -> (v: Self) {
        Self(NUM_VACANCY_BYTE)
    }

    fn with_concentration(rng: &mut MyRng, cs: NumC<N>) -> (a: Self) {
        let weights = cs.get_cs();
        let total: u64 = total_weight_of(&weights);
        let draw: u64 = draw_below(rng, total);
        Self::pick(cs, draw)
    }

    fn uniform(rng: &mut MyRng) -> (a: Self) {
        let draw: u64 = draw_below(rng, N as u64);
        Self(draw as u8)
    }

    fn all_atoms() -> (r: Vec<Self>) {
        let mut out: Vec<Self> = Vec::new();
        let mut i: usize = 0;
        while i < N
            invariant
                1 <= N <= MAX_SPECIES,
                0 <= i <= N,
                out@.len() == i,
                forall|j: int| 0 <= j < i ==> (#[trigger] out@[j]) == NumAtom::<N>(j as u8),
            decreases N - i,
        {
            out.push(Self(i as u8));
            i = i + 1;
        }
        proof {
            assert(out@ =~= Self::species());
            assert forall|a: Self| a.is_species() implies out@.contains(a) by {
                assert(out@[a.0 as int] == a);
            }
        }
        out
    }
}

impl<const N: usize> Mark for NumAtom<N> {
    open spec fn marked(self) -> bool {
        self.0 & MARK_BIT != 0
    }

    open spec fn with_mark(self) -> Self {
        NumAtom(self.0 | MARK_BIT)
    }

    open spec fn without_mark(self) -> Self {
        NumAtom(self.0 & !MARK_BIT)
    }

    proof fn lemma_marks(a: Self) {
        let x = a.0;
        assert((x | 0x80u8) & 0x80u8 != 0) by (bit_vector);
        assert((x & !0x80u8) & 0x80u8 == 0) by (bit_vector);
        assert((x | 0x80u8) & !0x80u8 == x & !0x80u8) by (bit_vector);
        assert(x & 0x80u8 == 0 ==> x & !0x80u8 == x) by (bit_vector);
        assert(x <= 64 ==> x & 0x80u8 == 0) by (bit_vector);
    }

    fn mark(&mut self) {
        self.0 = self.0 | MARK_BIT;
    }

    fn unmark(&mut self) {
        self.0 = self.0 & !MARK_BIT;
    }

    fn is_marked(&self) -> (r: bool) {
        (self.0 & MARK_BIT) != 0
    }
}

/// One energy for each ordered pair of `N` species: row `a`, column `b` holds the energy of a
/// bond between the species `a` and `b`.
impl<const N: usize> Energies<NumAtom<N>> for [[i32; N]; N] {
    open spec fn energy(&self, a: NumAtom<N>, b: NumAtom<N>) -> int {
        if a.0 < N && b.0 < N {
            self@[a.0 as int]@[b.0 as int] as int
        } else {
            0
        }
    }

    open spec fn well_formed(&self) -> bool {
        &&& N <= MAX_SPECIES
        &&& forall|i: int, j: int|
            0 <= i < N && 0 <= j < N ==> (#[trigger] self@[i])@[j] == (#[trigger] self@[j])@[i]
    }

    proof fn lemma_energy(&self, a: NumAtom<N>, b: NumAtom<N>) {
        if a.0 < N && b.0 < N {
            assert(self@[a.0 as int]@[b.0 as int] == self@[b.0 as int]@[a.0 as int]);
        }
    }

    fn get_interaction_energy(&self, a_1: NumAtom<N>, a_2: NumAtom<N>) -> (e: i32) {
        let first: usize = a_1.0 as usize;
        let second: usize = a_2.0 as usize;
        if first < N && second < N {
            self[first][second]
        } else {
            0
        }
    }
}

} // verus!
