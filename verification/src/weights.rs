use crate::rng::{draw_below, MyRng};
use crate::sums::sum;
use vstd::prelude::*;

verus! {

/// The sum of the first `n` weights.
pub open spec fn weight_before(weights: Seq<u32>, n: int) -> int {
    sum(|i: int| weights[i] as int, n)
}

/// The sum of all weights.
pub open spec fn weight_sum(weights: Seq<u32>) -> int {
    weight_before(weights, weights.len() as int)
}

/// Whether `draw` falls into the stretch of entry `at` when the weights are laid end to end.
pub open spec fn falls_on(weights: Seq<u32>, draw: int, at: int) -> bool {
    &&& 0 <= at < weights.len()
    &&& weight_before(weights, at) <= draw < weight_before(weights, at + 1)
}

/// The sum of the weights, where it fits in 64 bits.
pub fn total_weight_of(weights: &Vec<u32>) -> (r: u64)
    requires
        weights@.len() <= u32::MAX,
    ensures
        r == weight_sum(weights@),
{
    let mut acc: u64 = 0;
    let mut i: usize = 0;
    while i < weights.len()
        invariant
            weights@.len() <= u32::MAX,
            0 <= i <= weights@.len(),
            acc == weight_before(weights@, i as int),
            acc <= i * 0xffff_ffff,
        decreases weights@.len() - i,
    {
        assert((i + 1) * 0xffff_ffff == i * 0xffff_ffff + 0xffff_ffff
            && i * 0xffff_ffff <= 0xffff_ffff * 0xffff_ffff) by (nonlinear_arith)
            requires
                0 <= i <= 0xffff_ffff,
        ;
        acc = acc + weights[i] as u64;
        i = i + 1;
    }
    acc
}

/// The entry that a draw below the sum of the weights selects: the one into whose stretch
/// the draw falls when the weights are laid end to end. No entry of weight zero is selected.
pub fn pick_weighted(weights: &Vec<u32>, draw: u64) -> (r: usize)
    requires
        weights@.len() <= u32::MAX,
        draw < weight_sum(weights@),
    ensures
        falls_on(weights@, draw as int, r as int),
        weights@[r as int] > 0,
{
    let mut acc: u64 = 0;
    let mut i: usize = 0;
    proof {
        lemma_first_bound(weights@, 0);
    }
    while draw >= acc + weights[i] as u64
        invariant
            weights@.len() <= u32::MAX,
            draw < weight_sum(weights@),
            0 <= i < weights@.len(),
            acc == weight_before(weights@, i as int),
            acc <= draw,
            acc + weights@[i as int] <= 0xffff_ffff_0000_0000,
        decreases weights@.len() - i,
    {
        acc = acc + weights[i] as u64;
        i = i + 1;
        proof {
            if i < weights@.len() {
                lemma_first_bound(weights@, i as int);
            }
        }
    }
    i
}

/// The first weights together stay far below what 64 bits hold.
proof fn lemma_first_bound(weights: Seq<u32>, n: int)
    requires
        0 <= n < weights.len() <= u32::MAX,
    ensures
        weight_before(weights, n + 1) <= 0xffff_ffff_0000_0000,
{
    crate::sums::lemma_sum_bounds(|i: int| weights[i] as int, 0, 0xffff_ffff, n + 1);
    assert((n + 1) * 0xffff_ffff <= 0xffff_ffff * 0xffff_ffff) by (nonlinear_arith)
        requires
            0 <= n + 1 <= 0xffff_ffff,
    ;
}

/// A position drawn with the chances that the weights give.
pub fn draw_weighted(rng: &mut MyRng, weights: &Vec<u32>) -> (r: usize)
    requires
        weights@.len() <= u32::MAX,
        weight_sum(weights@) > 0,
    ensures
        r < weights@.len(),
        weights@[r as int] > 0,
{
    let total: u64 = total_weight_of(weights);
    let draw: u64 = draw_below(rng, total);
    pick_weighted(weights, draw)
}

} // verus!
