use crate::rng::{draw_below, MyRng};
use vstd::prelude::*;

verus! {

/// An occupant of a lattice site, stored as one byte.
pub trait RandAtom: Copy + Sized {
    /// The relative weights by which occupants are drawn.
    type Concentration: Copy;

    /// The byte that stands for this occupant.
    spec fn byte(self) -> u8;

    /// Whether this value denotes an empty site.
    spec fn is_vacancy(self) -> bool;

    /// Whether this value denotes one of the species, unmarked.
    spec fn is_species(self) -> bool;

    /// Whether `cs` can be drawn from.
    spec fn drawable(cs: Self::Concentration) -> bool;

    /// Whether `a` is a species to which `cs` gives a weight above zero: only such a species
    /// is ever drawn with the weights of `cs`.
    spec fn drawn_from(cs: Self::Concentration, a: Self) -> bool;

    /// The species, in the order in which `all_atoms` lists them.
    spec fn species() -> Seq<Self>;

    /// Whether there is a species at all, and each of them has a byte of its own.
    spec fn inhabited() -> bool;

    /// Occupants are equal exactly when their bytes are, no species is a vacancy, and
    /// there is only one vacancy.
    proof fn lemma_bytes(a: Self, b: Self)
        ensures
            a.byte() == b.byte() <==> a == b,
            a.is_species() ==> !a.is_vacancy(),
            a.is_vacancy() && b.is_vacancy() ==> a == b,
    ;

    /// The byte of this occupant.
    fn value(&self) -> (b: u8)
        ensures
            b == self.byte(),
    ;

    /// The value that marks an empty site.
    fn vacancy() -> (v: Self)
        ensures
            v.is_vacancy(),
    ;

    /// Draws a species with the weights of `cs`: never one of weight zero.
    fn with_concentration(rng: &mut MyRng, cs: Self::Concentration) -> (a: Self)
        requires
            Self::drawable(cs),
        ensures
            a.is_species(),
            Self::drawn_from(cs, a),
    ;

    /// Draws a species, each with the same chance.
    fn uniform(rng: &mut MyRng) -> (a: Self)
        requires
            Self::inhabited(),
        ensures
            a.is_species(),
    ;

    /// Every species, once.
    fn all_atoms() -> (r: Vec<Self>)
        requires
            Self::inhabited(),
        ensures
            r@ == Self::species(),
            forall|i: int| 0 <= i < r@.len() ==> (#[trigger] r@[i]).is_species(),
            forall|i: int, j: int| 0 <= i < j < r@.len() ==> r@[i] != r@[j],
            forall|a: Self| a.is_species() ==> r@.contains(a),
    ;
}

/// An occupant that can carry a transient mark.
pub trait Mark: RandAtom {
    /// Whether the mark is set.
    spec fn marked(self) -> bool;

    /// This occupant with the mark set.
    spec fn with_mark(self) -> Self;

    /// This occupant with the mark cleared.
    spec fn without_mark(self) -> Self;

    /// Setting and clearing the mark change nothing else, and a species carries no mark.
    proof fn lemma_marks(a: Self)
        ensures
            a.with_mark().marked(),
            !a.without_mark().marked(),
            a.with_mark().without_mark() == a.without_mark(),
            !a.marked() ==> a.without_mark() == a,
            a.is_species() ==> !a.marked(),
            a.is_vacancy() ==> !a.marked(),
    ;

    /// Sets the mark. It has to be cleared again with `unmark`.
    fn mark(&mut self)
        ensures
            *final(self) == old(self).with_mark(),
    ;

    /// Clears the mark.
    fn unmark(&mut self)
        ensures
            *final(self) == old(self).without_mark(),
    ;

    /// Whether the mark is set.
    fn is_marked(&self) -> (r: bool)
        ensures
            r == self.marked(),
    ;
}

/// The bit that marks an occupant as visited.
pub const MARK_BIT: u8 = 0b1000_0000;

/// The byte of an empty site.
pub const VACANCY_BYTE: u8 = 0b0000_0100;

/// An occupant of a two-species lattice: species 0 or 1, or a vacancy.
#[derive(Debug, Hash, PartialEq, Eq, Clone, Copy, Structural)]
pub struct BinAtom(pub u8);

impl Default for BinAtom {
    /// Species 0.
    fn default() -> (r: Self)
        ensures
            r.0 == 0,
    {
        BinAtom(0)
    }
}

/// The weights of the two species of a binary lattice.
#[derive(Clone, Copy)]
pub struct BinConcentration {
    pub c_a: u32,
    pub c_b: u32,
}

impl BinConcentration {
    /// Weights `c_a` for species 0 and `c_b` for species 1; they need not sum to anything
    /// in particular, but one of them has to be positive.
    pub fn new(c_a: u32, c_b: u32) -> (r: Self)
        requires
            c_a + c_b > 0,
        ensures
            r.c_a == c_a,
            r.c_b == c_b,
    {
        Self { c_a, c_b }
    }

    /// The weight of species 0.
    pub fn get_c_a(&self) -> (r: u32)
        ensures
            r == self.c_a,
    {
        self.c_a
    }
}

impl BinAtom {
    /// Species `num`, which is 0 or 1.
    pub fn new(num: u8) -> (r: Self)
        requires
            num <= 1,
        ensures
            r.0 == num,
            r.is_species(),
    {
        Self(num)
    }

    /// The species that a draw below the sum of the weights selects: species 0 for the first
    /// `c_a` draws, species 1 for the others.
    pub fn pick(cs: BinConcentration, draw: u64) -> (r: Self)
        ensures
            r.0 == if draw < cs.c_a { 0u8 } else { 1u8 },
    {
        if draw < cs.c_a as u64 {
            Self(0b0000)
        } else {
            Self(0b0001)
        }
    }
}

impl RandAtom for BinAtom {
    type Concentration = BinConcentration;

    open spec fn byte(self) -> u8 {
        self.0
    }

    open spec fn is_vacancy(self) -> bool {
        self.0 == VACANCY_BYTE
    }

    open spec fn is_species(self) -> bool {
        self.0 <= 1
    }

    open spec fn drawable(cs: BinConcentration) -> bool {
        cs.c_a + cs.c_b > 0
    }

    open spec fn drawn_from(cs: BinConcentration, a: Self) -> bool {
        (a.0 == 0 && cs.c_a > 0) || (a.0 == 1 && cs.c_b > 0)
    }

    open spec fn species() -> Seq<Self> {
        seq![BinAtom(0), BinAtom(1)]
    }

    open spec fn inhabited() -> bool {
        true
    }

    proof fn lemma_bytes(a: Self, b: Self) {
    }

    fn value(&self) -> (b: u8) {
        self.0
    }

    fn vacancy() -> (v: Self) {
        Self(0b0100)
    }

    fn with_concentration(rng: &mut MyRng, cs: BinConcentration) -> (a: Self) {
        let draw: u64 = draw_below(rng, cs.c_a as u64 + cs.c_b as u64);
        Self::pick(cs, draw)
    }

    fn uniform(rng: &mut MyRng) -> (a: Self) {
        let draw: u64 = draw_below(rng, 2);
        Self::pick(BinConcentration { c_a: 1, c_b: 1 }, draw)
    }

    fn all_atoms() -> (r: Vec<Self>) {
        let mut out: Vec<Self> = Vec::new();
        out.push(Self(0b0000));
        out.push(Self(0b0001));
        proof {
            assert(out@ =~= Self::species());
            assert forall|a: Self| a.is_species() implies out@.contains(a) by {
                if a.0 == 0 {
                    assert(out@[0] == a);
                } else {
                    assert(out@[1] == a);
                }
            }
        }
        out
    }
}

impl Mark for BinAtom {
    open spec fn marked(self) -> bool {
        self.0 & MARK_BIT != 0
    }

    open spec fn with_mark(self) -> Self {
        BinAtom(self.0 | MARK_BIT)
    }

    open spec fn without_mark(self) -> Self {
        BinAtom(self.0 & !MARK_BIT)
    }

    proof fn lemma_marks(a: Self) {
        let x = a.0;
        assert((x | 0x80u8) & 0x80u8 != 0) by (bit_vector);
        assert((x & !0x80u8) & 0x80u8 == 0) by (bit_vector);
        assert((x | 0x80u8) & !0x80u8 == x & !0x80u8) by (bit_vector);
        assert(x & 0x80u8 == 0 ==> x & !0x80u8 == x) by (bit_vector);
        assert(x <= 4 ==> x & 0x80u8 == 0) by (bit_vector);
    }

    fn mark(&mut self) {
        self.0 = self.0 | MARK_BIT;
    }

    fn unmark(&mut self) {
        self.0 = self.0 & !MARK_BIT;
    }

    fn is_marked(&self) -> (r: bool) {
        (self.0 & MARK_BIT) != 0
    }
}

} // verus!
