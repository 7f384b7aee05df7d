use crate::sums::{
    lemma_sum_add, lemma_sum_bounds, lemma_sum_eq, lemma_sum_grows, lemma_sum_scale,
    lemma_sum_sub, sum,
};
use vstd::prelude::*;

verus! {

/// The sum of the samples.
pub open spec fn sum_of(samples: Seq<i64>) -> int {
    sum(|i: int| samples[i] as int, samples.len() as int)
}

/// The sum of the squares of the samples.
pub open spec fn squares_of(samples: Seq<i64>) -> int {
    sum(|i: int| samples[i] * samples[i], samples.len() as int)
}

/// The variance of the samples as a population, times the square of their number.
pub open spec fn spread_of(samples: Seq<i64>) -> int {
    samples.len() * squares_of(samples) - sum_of(samples) * sum_of(samples)
}

/// The sum of the squared distances of the samples from `x`.
pub open spec fn distance_from(samples: Seq<i64>, x: int) -> int {
    sum(|i: int| (samples[i] - x) * (samples[i] - x), samples.len() as int)
}

/// One more sample adds itself to the sum, its square to the squares, and to the spread the
/// squared distances of all samples before it from it.
pub proof fn lemma_one_more_sample(samples: Seq<i64>, x: i64)
    ensures
        sum_of(samples.push(x)) == sum_of(samples) + x,
        squares_of(samples.push(x)) == squares_of(samples) + x * x,
        spread_of(samples.push(x)) == spread_of(samples) + distance_from(samples, x as int),
        distance_from(samples, x as int) >= 0,
{
    let n = samples.len() as int;
    let more = samples.push(x);
    let xi = x as int;
    let values = |i: int| samples[i] as int;
    let squares = |i: int| samples[i] * samples[i];
    lemma_sum_eq(|i: int| more[i] as int, values, n);
    lemma_sum_eq(|i: int| more[i] * more[i], squares, n);
    let s = sum_of(samples);
    let q = squares_of(samples);
    // the squared distances, written out
    let twice = |i: int| (2 * xi) * values(i);
    let flat = |i: int| xi * xi;
    let ones = |i: int| 1int;
    let part = |i: int| squares(i) - twice(i);
    let whole = |i: int| part(i) + flat(i);
    lemma_sum_scale(values, 2 * xi, n);
    lemma_sum_scale(ones, xi * xi, n);
    lemma_sum_bounds(ones, 1, 1, n);
    lemma_sum_eq(|i: int| (xi * xi) * ones(i), flat, n);
    lemma_sum_sub(squares, twice, n);
    lemma_sum_add(part, flat, n);
    assert forall|i: int| 0 <= i < n implies (samples[i] - xi) * (samples[i] - xi) == #[trigger] whole(
        i,
    ) by {
        let v = samples[i] as int;
        assert((v - xi) * (v - xi) == v * v - (2 * xi) * v + xi * xi) by (nonlinear_arith);
    }
    lemma_sum_eq(|i: int| (samples[i] - xi) * (samples[i] - xi), whole, n);
    assert(distance_from(samples, xi) == q - (2 * xi) * s + (xi * xi) * n);
    assert((n + 1) * (q + xi * xi) - (s + xi) * (s + xi) == n * q - s * s + (q - (2 * xi) * s + (xi
        * xi) * n)) by (nonlinear_arith);
    let distances = |i: int| (samples[i] - xi) * (samples[i] - xi);
    assert forall|i: int| 0 <= i < n implies 0 <= #[trigger] distances(i) by {
        let d = samples[i] - xi;
        assert(d * d >= 0) by (nonlinear_arith);
    }
    lemma_sum_grows(distances, 0, n);
}

/// The spread of any samples is not negative.
pub proof fn lemma_spread_not_negative(samples: Seq<i64>)
    ensures
        spread_of(samples) >= 0,
        squares_of(samples) >= 0,
    decreases samples.len(),
{
    if samples.len() > 0 {
        let before = samples.drop_last();
        let x = samples.last();
        lemma_spread_not_negative(before);
        lemma_one_more_sample(before, x);
        assert(before.push(x) =~= samples);
        assert(x * x >= 0) by (nonlinear_arith);
    } else {
        assert(samples.len() * squares_of(samples) == 0) by (nonlinear_arith)
            requires
                samples.len() == 0,
        ;
    }
}

/// Mean and variance of a stream of whole samples, kept exactly and without keeping the
/// samples.
pub struct StreamingStats {
    count: u64,
    total: i128,
    squares: u128,
    seen: Ghost<Seq<i64>>,
}

impl View for StreamingStats {
    type V = Seq<i64>;

    /// The samples taken in so far.
    closed spec fn view(&self) -> Seq<i64> {
        self.seen@
    }
}

impl StreamingStats {
    /// Whether the kept numbers are those of the samples taken in.
    pub closed spec fn well_formed(&self) -> bool {
        &&& self.count == self@.len()
        &&& self.total == sum_of(self@)
        &&& self.squares == squares_of(self@)
    }

    /// Whether one more sample `x` can be taken in without a kept number leaving its range.
    pub open spec fn has_room_for(&self, x: i64) -> bool {
        &&& self@.len() < u64::MAX
        &&& i128::MIN <= sum_of(self@) + x <= i128::MAX
        &&& squares_of(self@) + x * x <= u128::MAX
    }

    /// Statistics of no samples.
    pub fn new() -> (r: Self)
        ensures
            r.well_formed(),
            r@ == Seq::<i64>::empty(),
    {
        Self { count: 0, total: 0, squares: 0, seen: Ghost(Seq::empty()) }
    }

    /// Takes in one more sample where there is room for it, and says whether there was.
    pub fn add_value(&mut self, x_k: i64) -> (taken: bool)
        requires
            old(self).well_formed(),
        ensures
            final(self).well_formed(),
            taken == old(self).has_room_for(x_k),
            final(self)@ == if taken { old(self)@.push(x_k) } else { old(self)@ },
    {
        proof {
            lemma_one_more_sample(self@, x_k);
            assert(-0x8000_0000_0000_0000 * 0x8000_0000_0000_0000 <= (x_k as int) * (x_k as int)
                <= 0x8000_0000_0000_0000 * 0x8000_0000_0000_0000) by (nonlinear_arith)
                requires
                    -0x8000_0000_0000_0000 <= x_k <= 0x7fff_ffff_ffff_ffff,
            ;
            assert((x_k as int) * (x_k as int) >= 0) by (nonlinear_arith);
        }
        let wide: i128 = x_k as i128;
        let square: u128 = (wide * wide) as u128;
        if self.count == u64::MAX {
            return false;
        }
        let total = match self.total.checked_add(wide) {
            Some(t) => t,
            None => {
                return false;
            },
        };
        let squares = match self.squares.checked_add(square) {
            Some(s) => s,
            None => {
                return false;
            },
        };
        self.count = self.count + 1;
        self.total = total;
        self.squares = squares;
        self.seen = Ghost(self.seen@.push(x_k));
        true
    }

    /// The number of samples.
    pub fn count(&self) -> (r: u64)
        requires
            self.well_formed(),
        ensures
            r == self@.len(),
    {
        self.count
    }

    /// The mean of the samples, as the sum of the samples and their number.
    pub fn avg(&self) -> (r: (i128, u64))
        requires
            self.well_formed(),
            self@.len() > 0,
        ensures
            r.0 == sum_of(self@),
            r.1 == self@.len(),
    {
        (self.total, self.count)
    }

    /// The variance of the samples as a population, as a numerator and a denominator: the
    /// spread of the samples and the square of their number. Nothing where the numerator
    /// does not fit in 128 bits.
    pub fn variance(&self) -> (r: Option<(u128, u128)>)
        requires
            self.well_formed(),
            self@.len() > 0,
        ensures
            match r {
                Some((spread, squared_count)) => spread == spread_of(self@) && squared_count
                    == self@.len() * self@.len(),
                None => self@.len() * squares_of(self@) > u128::MAX,
            },
    {
        proof {
            lemma_spread_not_negative(self@);
            assert(self@.len() * self@.len() <= 0xffff_ffff_ffff_ffff * 0xffff_ffff_ffff_ffff)
                by (nonlinear_arith)
                requires
                    self@.len() <= 0xffff_ffff_ffff_ffff,
            ;
        }
        let n: u128 = self.count as u128;
        match n.checked_mul(self.squares) {
            Some(scaled) => {
                let magnitude: u128 = if self.total >= 0 {
                    self.total as u128
                } else {
                    (-(self.total + 1)) as u128 + 1
                };
                proof {
                    assert(magnitude * magnitude == self.total * self.total) by (nonlinear_arith)
                        requires
                            magnitude == self.total || magnitude == -self.total,
                    ;
                }
                let square: u128 = magnitude * magnitude;
                Some((scaled - square, n * n))
            },
            None => None,
        }
    }
}

} // verus!
