use crate::rng::{draw_below, MyRng};
use vstd::prelude::*;

verus! {

/// The three species of a ternary alloy.
#[derive(Debug, Clone, Copy, PartialEq, Eq, Structural)]
pub enum TerAtoms {
    A,
    B,
    C,
}

impl Default for TerAtoms {
    fn default() -> (r: Self)
        ensures
            r == TerAtoms::A,
    {
        TerAtoms::A
    }
}

/// The weights of the three species of a ternary alloy.
#[derive(Debug, Clone, Copy)]
pub struct TerConcentration {
    pub n_a: u32,
    pub n_b: u32,
    pub n_c: u32,
}

impl TerConcentration {
    /// Weights for the species `A`, `B` and `C`, of which one has to be positive.
    pub fn new(n_a: u32, n_b: u32, n_c: u32) -> (r: Self)
        requires
            n_a + n_b + n_c > 0,
        ensures
            r.n_a == n_a,
            r.n_b == n_b,
            r.n_c == n_c,
    {
        Self { n_a, n_b, n_c }
    }

    /// The three species with the same weight.
    pub fn uniform() -> (r: Self)
        ensures
            r.n_a == 1,
            r.n_b == 1,
            r.n_c == 1,
    {
        Self::new(1, 1, 1)
    }
}

impl TerAtoms {
    /// The byte that stands for the species.
    pub open spec fn byte_of(self) -> u8 {
        match self {
            TerAtoms::A => 0u8,
            TerAtoms::B => 1u8,
            TerAtoms::C => 2u8,
        }
    }

    /// The byte that stands for the species.
    pub fn byte(self) -> (r: u8)
        ensures
            r == self.byte_of(),
    {
        match self {
            TerAtoms::A => 0,
            TerAtoms::B => 1,
            TerAtoms::C => 2,
        }
    }

    /// The species that a draw below the sum of the weights selects: `A` for the first
    /// `n_a` draws, `B` for the next `n_b`, `C` for the others.
    pub fn pick(c: TerConcentration, draw: u64) -> (r: Self)
        ensures
            r == if draw < c.n_a {
                TerAtoms::A
            } else if draw < c.n_a + c.n_b {
                TerAtoms::B
            } else {
                TerAtoms::C
            },
    {
        if draw < c.n_a as u64 {
            TerAtoms::A
        } else if draw < c.n_a as u64 + c.n_b as u64 {
            TerAtoms::B
        } else {
            TerAtoms::C
        }
    }

    /// The bytes of the atoms, one after another.
    pub fn to_bytes(atoms: &Vec<Self>) -> (r: Vec<u8>)
        ensures
            r@.len() == atoms@.len(),
            forall|i: int| 0 <= i < r@.len() ==> #[trigger] r@[i] == atoms@[i].byte_of(),
    {
        let mut out: Vec<u8> = Vec::new();
        let mut i: usize = 0;
        while i < atoms.len()
            invariant
                0 <= i <= atoms@.len(),
                out@.len() == i,
                forall|j: int| 0 <= j < i ==> #[trigger] out@[j] == atoms@[j].byte_of(),
            decreases atoms@.len() - i,
        {
            out.push(atoms[i].byte());
            i = i + 1;
        }
        out
    }

    /// Draws one of the three species, each with the same chance.
    pub fn uniform(rng: &mut MyRng) -> (r: Self) {
        Self::pick(TerConcentration::uniform(), draw_below(rng, 3))
    }

    /// Draws a species with the weights of `c`.
    pub fn with_concentration(rng: &mut MyRng, c: TerConcentration) -> (r: Self)
        requires
            c.n_a + c.n_b + c.n_c > 0,
        ensures
            c.n_a == 0 ==> r != TerAtoms::A,
            c.n_b == 0 ==> r != TerAtoms::B,
            c.n_c == 0 ==> r != TerAtoms::C,
    {
        let draw: u64 = draw_below(rng, c.n_a as u64 + c.n_b as u64 + c.n_c as u64);
        Self::pick(c, draw)
    }
}

} // verus!
