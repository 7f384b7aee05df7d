use crate::rng::{draw_below, MyRng};
use vstd::prelude::*;

verus! {

/// The three species of a three-component alloy.
#[derive(Debug, Clone, Copy, PartialEq, Eq, Structural)]
pub enum TriAtoms {
    A,
    B,
    C,
}

impl Default for TriAtoms {
    fn default() -> (r: Self)
        ensures
            r == TriAtoms::A,
    {
        TriAtoms::A
    }
}

impl TriAtoms {
    /// The byte that stands for the species.
    pub open spec fn byte_of(self) -> u8 {
        match self {
            TriAtoms::A => 0u8,
            TriAtoms::B => 1u8,
            TriAtoms::C => 2u8,
        }
    }

    /// The byte that stands for the species.
    pub fn byte(self) -> (r: u8)
        ensures
            r == self.byte_of(),
    {
        match self {
            TriAtoms::A => 0,
            TriAtoms::B => 1,
            TriAtoms::C => 2,
        }
    }

    /// The species that a draw below `whole` selects, where `parts.0` of the whole stand for
    /// `A` and `parts.1` for `B`: `A` for the first `parts.0` draws, `B` for the next
    /// `parts.1`, `C` for the others.
    pub fn pick(parts: (u32, u32), draw: u64) -> (r: Self)
        ensures
            r == if draw < parts.0 {
                TriAtoms::A
            } else if draw < parts.0 + parts.1 {
                TriAtoms::B
            } else {
                TriAtoms::C
            },
    {
        if draw < parts.0 as u64 {
            TriAtoms::A
        } else if draw < parts.0 as u64 + parts.1 as u64 {
            TriAtoms::B
        } else {
            TriAtoms::C
        }
    }

    /// The bytes of the atoms, one after another.
    pub fn to_bytes(atoms: &Vec<Self>) -> (r: Vec<u8>)
        ensures
            r@.len() == atoms@.len(),
            forall|i: int| 0 <= i < r@.len() ==> #[trigger] r@[i] == atoms@[i].byte_of(),
    {
        let mut out: Vec<u8> = Vec::new();
        let mut i: usize = 0;
        while i < atoms.len()
            invariant
                0 <= i <= atoms@.len(),
                out@.len() == i,
                forall|j: int| 0 <= j < i ==> #[trigger] out@[j] == atoms@[j].byte_of(),
            decreases atoms@.len() - i,
        {
            out.push(atoms[i].byte());
            i = i + 1;
        }
        out
    }

    /// Draws one of the three species, each with the same chance.
    pub fn uniform(rng: &mut MyRng) -> (r: Self) {
        Self::pick((1, 1), draw_below(rng, 3))
    }

    /// Draws a species: `A` with `parts.0` chances in `whole`, `B` with `parts.1`, and `C`
    /// with the rest.
    pub fn with_concentration(rng: &mut MyRng, parts: (u32, u32), whole: u64) -> (r: Self)
        requires
            whole > 0,
            parts.0 + parts.1 <= whole,
        ensures
            parts.0 == 0 ==> r != TriAtoms::A,
            parts.1 == 0 ==> r != TriAtoms::B,
            parts.0 + parts.1 == whole ==> r != TriAtoms::C,
    {
        let draw: u64 = draw_below(rng, whole);
        Self::pick(parts, draw)
    }
}

} // verus!
