use crate::lattice::{Lattice, Storage};
use vstd::prelude::*;

verus! {

/// A rectangle of indexed pixels, one byte each, row by row.
pub struct Frame {
    pub width: u16,
    pub height: u16,
    pub pixels: Vec<u8>,
}

/// A lattice that can be shown as a frame: one pixel per site, whose value is the byte of
/// the occupant.
pub trait GifFrame: Lattice {
    /// The number of pixels in a row.
    spec fn frame_width() -> nat;

    /// The number of rows.
    spec fn frame_height() -> nat;

    /// The sites of the first `frame_width` by `frame_height` slots, as pixels.
    fn get_frame(&self) -> (r: Frame)
        requires
            self.well_formed(),
            Self::frame_width() <= u16::MAX,
            Self::frame_height() <= u16::MAX,
        ensures
            r.width == Self::frame_width(),
            r.height == Self::frame_height(),
            r.pixels@.len() == Self::frame_width() * Self::frame_height(),
            r.pixels@.len() <= self.cells().len(),
            forall|i: int|
                0 <= i < r.pixels@.len() ==> #[trigger] r.pixels@[i] == crate::atoms::RandAtom::byte(
                    self.cells()[i],
                ),
    ;
}

/// The bytes of the first `count` occupants of a lattice.
pub fn leading_bytes<L: Lattice>(lattice: &L, count: usize) -> (r: Vec<u8>)
    requires
        lattice.well_formed(),
        count <= L::sites(),
    ensures
        r@.len() == count,
        forall|i: int|
            0 <= i < count ==> #[trigger] r@[i] == crate::atoms::RandAtom::byte(
                lattice.cells()[i],
            ),
{
    let cells = lattice.as_flat_slice();
    proof {
        lattice.lemma_well_formed();
    }
    let mut out: Vec<u8> = Vec::new();
    let mut i: usize = 0;
    while i < count
        invariant
            cells@ == lattice.cells(),
            cells@.len() == L::sites(),
            count <= L::sites(),
            0 <= i <= count,
            out@.len() == i,
            forall|j: int|
                0 <= j < i ==> #[trigger] out@[j] == crate::atoms::RandAtom::byte(
                    lattice.cells()[j],
                ),
        decreases count - i,
    {
        out.push(crate::atoms::RandAtom::value(&cells[i]));
        i = i + 1;
    }
    out
}

/// The cells of `M` rows of `N` cells each, row after row.
pub fn flatten<T: Copy, const N: usize, const M: usize>(arr: &[[T; N]; M]) -> (r: Vec<T>)
    ensures
        r@.len() == N * M,
        forall|at: int|
            0 <= at < r@.len() ==> #[trigger] r@[at] == arr@[at / (N as int)]@[at % (N as int)],
{
    let mut out: Vec<T> = Vec::new();
    let mut i: usize = 0;
    while i < M
        invariant
            0 <= i <= M,
            out@.len() == i * N,
            forall|at: int|
                0 <= at < out@.len() ==> #[trigger] out@[at] == arr@[at / (N as int)]@[at % (
                N as int)],
        decreases M - i,
    {
        let mut j: usize = 0;
        while j < N
            invariant
                0 <= i < M,
                0 <= j <= N,
                out@.len() == i * N + j,
                forall|at: int|
                    0 <= at < out@.len() ==> #[trigger] out@[at] == arr@[at / (N as int)]@[at % (
                    N as int)],
            decreases N - j,
        {
            proof {
                crate::torus::lemma_flat(j as int, i as int, N as int, M as int);
            }
            out.push(arr[i][j]);
            j = j + 1;
        }
        i = i + 1;
        assert((i - 1) * N + N == i * N) by (nonlinear_arith);
    }
    assert(M * N == N * M) by (nonlinear_arith);
    out
}

} // verus!
