use crate::atoms::BinConcentration;
use crate::rng::{draw_below, draw_bool, MyRng};
use vstd::prelude::*;

verus! {

/// The two species of a binary alloy.
#[derive(Debug, Clone, Copy, PartialEq, Eq, Structural)]
pub enum BinAtoms {
    A,
    B,
}

impl Default for BinAtoms {
    fn default() -> (r: Self)
        ensures
            r == BinAtoms::A,
    {
        BinAtoms::A
    }
}

impl BinAtoms {
    /// The byte that stands for the species.
    pub open spec fn byte_of(self) -> u8 {
        match self {
            BinAtoms::A => 0u8,
            BinAtoms::B => 1u8,
        }
    }

    /// The byte that stands for the species.
    pub fn byte(self) -> (r: u8)
        ensures
            r == self.byte_of(),
    {
        match self {
            BinAtoms::A => 0,
            BinAtoms::B => 1,
        }
    }

    /// The species that a coin selects: `A` for heads.
    pub fn of_coin(heads: bool) -> (r: Self)
        ensures
            r == if heads { BinAtoms::A } else { BinAtoms::B },
    {
        if heads {
            BinAtoms::A
        } else {
            BinAtoms::B
        }
    }

    /// The species that a draw below the sum of the weights selects.
    pub fn pick(c: BinConcentration, draw: u64) -> (r: Self)
        ensures
            r == if draw < c.c_a { BinAtoms::A } else { BinAtoms::B },
    {
        if draw < c.c_a as u64 {
            BinAtoms::A
        } else {
            BinAtoms::B
        }
    }

    /// The bytes of the atoms, one after another.
    pub fn to_bytes(atoms: &Vec<Self>) -> (r: Vec<u8>)
        ensures
            r@.len() == atoms@.len(),
            forall|i: int| 0 <= i < r@.len() ==> #[trigger] r@[i] == atoms@[i].byte_of(),
    {
        let mut out: Vec<u8> = Vec::new();
        let mut i: usize = 0;
        while i < atoms.len()
            invariant
                0 <= i <= atoms@.len(),
                out@.len() == i,
                forall|j: int| 0 <= j < i ==> #[trigger] out@[j] == atoms@[j].byte_of(),
            decreases atoms@.len() - i,
        {
            out.push(atoms[i].byte());
            i = i + 1;
        }
        out
    }

    /// Draws one of the two species, each with the same chance.
    pub fn uniform(rng: &mut MyRng) -> (r: Self) {
        Self::of_coin(draw_bool(rng))
    }

    /// Draws a species with the weights of `c`.
    pub fn with_concentration(rng: &mut MyRng, c: BinConcentration) -> (r: Self)
        requires
            c.c_a + c.c_b > 0,
        ensures
            c.c_b == 0 ==> r == BinAtoms::A,
            c.c_a == 0 ==> r == BinAtoms::B,
    {
        let draw: u64 = draw_below(rng, c.c_a as u64 + c.c_b as u64);
        Self::pick(c, draw)
    }
}

} // verus!
