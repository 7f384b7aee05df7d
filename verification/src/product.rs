use itertools::Itertools;
use vstd::prelude::*;

verus! {

/// `itertools::Itertools::cartesian_product` of the items with the numbers below `count`,
/// gathered by `Itertools::collect_vec`: every item is paired with every number, item after
/// item and the numbers in ascending order.
#[verifier::external_body]
pub(crate) fn paired_with_range<T: Copy>(items: &Vec<T>, count: usize) -> (r: Vec<(T, usize)>)
    requires
        items@.len() * count <= usize::MAX,
    ensures
        r@.len() == items@.len() * count,
        forall|at: int|
            0 <= at < r@.len() ==> #[trigger] r@[at] == (
                items@[at / (count as int)],
                (at % (count as int)) as usize,
            ),
{
    items.iter().copied().cartesian_product(0..count).collect_vec()
}

/// The numbers below `count`, in ascending order.
pub fn numbers_below(count: usize) -> (r: Vec<usize>)
    ensures
        r@.len() == count,
        forall|i: int| 0 <= i < count ==> r@[i] == i,
{
    let mut out: Vec<usize> = Vec::new();
    let mut i: usize = 0;
    while i < count
        invariant
            0 <= i <= count,
            out@.len() == i,
            forall|j: int| 0 <= j < i ==> out@[j] == j,
        decreases count - i,
    {
        out.push(i);
        i = i + 1;
    }
    out
}

/// Every pair of a number below `outer` with a number below `inner`, by the first number
/// and then by the second.
pub fn grid_pairs(outer: usize, inner: usize) -> (r: Vec<(usize, usize)>)
    requires
        outer * inner <= usize::MAX,
    ensures
        r@.len() == outer * inner,
        forall|at: int|
            0 <= at < r@.len() ==> #[trigger] r@[at] == (
                (at / (inner as int)) as usize,
                (at % (inner as int)) as usize,
            ),
{
    let firsts = numbers_below(outer);
    let pairs = paired_with_range(&firsts, inner);
    proof {
        assert forall|at: int| 0 <= at < pairs@.len() implies #[trigger] pairs@[at] == (
            (at / (inner as int)) as usize,
            (at % (inner as int)) as usize,
        ) by {
            crate::torus::lemma_unflat(at, inner as int, outer as int);
            assert(inner * outer == outer * inner) by (nonlinear_arith);
        }
    }
    pairs
}

} // verus!
