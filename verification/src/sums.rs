use vstd::prelude::*;

verus! {

/// The sum of `f` over `0..n`.
pub open spec fn sum(f: spec_fn(int) -> int, n: int) -> int
    decreases n,
{
    if n <= 0 {
        0
    } else {
        sum(f, n - 1) + f(n - 1)
    }
}

/// Sums of terms that agree on `0..n` agree.
pub proof fn lemma_sum_eq(f: spec_fn(int) -> int, g: spec_fn(int) -> int, n: int)
    requires
        forall|i: int| 0 <= i < n ==> #[trigger] f(i) == g(i),
    ensures
        sum(f, n) == sum(g, n),
    decreases n,
{
    if n > 0 {
        lemma_sum_eq(f, g, n - 1);
    }
}

/// The sum of two terms is the sum of their sums.
pub proof fn lemma_sum_add(f: spec_fn(int) -> int, g: spec_fn(int) -> int, n: int)
    ensures
        sum(|i: int| f(i) + g(i), n) == sum(f, n) + sum(g, n),
    decreases n,
{
    if n > 0 {
        lemma_sum_add(f, g, n - 1);
    }
}

/// The sum of a difference is the difference of the sums.
pub proof fn lemma_sum_sub(f: spec_fn(int) -> int, g: spec_fn(int) -> int, n: int)
    ensures
        sum(|i: int| f(i) - g(i), n) == sum(f, n) - sum(g, n),
    decreases n,
{
    if n > 0 {
        lemma_sum_sub(f, g, n - 1);
    }
}

/// A factor that does not depend on the index can be taken out of a sum.
pub proof fn lemma_sum_scale(f: spec_fn(int) -> int, c: int, n: int)
    ensures
        sum(|i: int| c * f(i), n) == c * sum(f, n),
    decreases n,
{
    if n > 0 {
        lemma_sum_scale(f, c, n - 1);
        assert(c * (sum(f, n - 1) + f(n - 1)) == c * sum(f, n - 1) + c * f(n - 1))
            by (nonlinear_arith);
    } else {
        assert(c * 0 == 0);
    }
}

/// A sum of zeros is zero.
pub proof fn lemma_sum_zero(f: spec_fn(int) -> int, n: int)
    requires
        forall|i: int| 0 <= i < n ==> #[trigger] f(i) == 0,
    ensures
        sum(f, n) == 0,
    decreases n,
{
    if n > 0 {
        lemma_sum_zero(f, n - 1);
    }
}

/// A term that vanishes everywhere but at `p` sums to its value at `p`.
pub proof fn lemma_sum_point(f: spec_fn(int) -> int, p: int, n: int)
    requires
        0 <= p < n,
        forall|i: int| 0 <= i < n && i != p ==> #[trigger] f(i) == 0,
    ensures
        sum(f, n) == f(p),
    decreases n,
{
    if n - 1 == p {
        lemma_sum_zero(f, n - 1);
    } else {
        lemma_sum_point(f, p, n - 1);
    }
}

/// A sum of terms within `lo..=hi` lies within `n` times these bounds.
pub proof fn lemma_sum_bounds(f: spec_fn(int) -> int, lo: int, hi: int, n: int)
    requires
        0 <= n,
        forall|i: int| 0 <= i < n ==> lo <= #[trigger] f(i) <= hi,
    ensures
        n * lo <= sum(f, n) <= n * hi,
    decreases n,
{
    if n > 0 {
        lemma_sum_bounds(f, lo, hi, n - 1);
        assert(n * lo == (n - 1) * lo + lo) by (nonlinear_arith);
        assert(n * hi == (n - 1) * hi + hi) by (nonlinear_arith);
    } else {
        assert(n * lo == 0 && n * hi == 0) by (nonlinear_arith)
            requires
                n == 0,
        ;
    }
}

/// A sum of terms that are not negative grows with its range.
pub proof fn lemma_sum_grows(f: spec_fn(int) -> int, m: int, n: int)
    requires
        m <= n,
        forall|i: int| 0 <= i < n ==> 0 <= #[trigger] f(i),
    ensures
        0 <= sum(f, m) <= sum(f, n),
    decreases n,
{
    if n > 0 {
        if m < n {
            lemma_sum_grows(f, m, n - 1);
        } else {
            lemma_sum_grows(f, m - 1, n - 1);
        }
    }
}

/// A double sum can be taken in either order.
pub proof fn lemma_sum_exchange(a: spec_fn(int, int) -> int, m: int, n: int)
    ensures
        sum(|k: int| sum(|s: int| a(k, s), n), m) == sum(|s: int| sum(|k: int| a(k, s), m), n),
    decreases n,
{
    let rows = |k: int| sum(|s: int| a(k, s), n);
    let cols = |s: int| sum(|k: int| a(k, s), m);
    if n > 0 {
        let fewer = |k: int| sum(|s: int| a(k, s), n - 1);
        let last = |k: int| a(k, n - 1);
        lemma_sum_exchange(a, m, n - 1);
        lemma_sum_add(fewer, last, m);
        lemma_sum_eq(rows, |k: int| fewer(k) + last(k), m);
        lemma_sum_eq(cols, |s: int| sum(|k: int| a(k, s), m), n - 1);
        assert(cols(n - 1) == sum(last, m)) by {
            lemma_sum_eq(|k: int| a(k, n - 1), last, m);
        }
    } else {
        lemma_sum_zero(rows, m);
    }
}

} // verus!
