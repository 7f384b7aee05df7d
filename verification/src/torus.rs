use vstd::arithmetic::div_mod::*;
use vstd::arithmetic::mul::*;
use vstd::prelude::*;

verus! {

/// The cell of an axis of length `len` that coordinate `x` wraps around to.
pub open spec fn wrap(x: int, len: int) -> int {
    x % len
}

/// The flat position of column `x` in row `y` of a grid whose rows are `w` long.
pub open spec fn flat(x: int, y: int, w: int) -> int {
    y * w + x
}

/// Wraps a signed coordinate onto an axis of length `len`, however long the axis is.
pub fn wrap_coord(x: isize, len: usize) -> (r: usize)
    requires
        0 < len,
    ensures
        r == wrap(x as int, len as int),
        r < len,
{
    if len <= isize::MAX as usize {
        match x.checked_rem_euclid(len as isize) {
            Some(t) => t as usize,
            None => 0,
        }
    } else if x >= 0 {
        proof {
            lemma_small_mod(x as nat, len as nat);
        }
        x as usize
    } else {
        // the axis is longer than any distance below zero: one turn forward lands on it
        let below: usize = (-(x + 1)) as usize;
        proof {
            lemma_mod_multiples_vanish(1, x as int, len as int);
            lemma_small_mod((x + len) as nat, len as nat);
        }
        len - 1 - below
    }
}

/// Wrapping is total and lands on the axis.
pub proof fn lemma_wrap_range(x: int, len: int)
    requires
        len > 0,
    ensures
        0 <= wrap(x, len) < len,
        0 <= x < len ==> wrap(x, len) == x,
{
    lemma_mod_bound(x, len);
    if 0 <= x < len {
        lemma_small_mod(x as nat, len as nat);
    }
}

/// Coordinates that differ by whole turns around an axis wrap to the same cell; the
/// coordinate just before the first cell wraps to the last one.
pub proof fn lemma_wrap_periodic(c: int, k: int, len: int)
    requires
        len > 0,
    ensures
        wrap(c + k * len, len) == wrap(c, len),
        wrap(-1, len) == len - 1,
{
    lemma_mod_multiples_vanish(k, c, len);
    assert(len * k + c == c + k * len) by (nonlinear_arith);
    lemma_mod_multiples_vanish(-1, len - 1, len);
    lemma_small_mod((len - 1) as nat, len as nat);
    assert(len * -1 + (len - 1) == -1) by (nonlinear_arith);
}

/// Shifting a coordinate and shifting the cell it wraps to lead to the same cell.
pub proof fn lemma_wrap_shift(x: int, d: int, len: int)
    requires
        len > 0,
    ensures
        wrap(x + d, len) == wrap(wrap(x, len) + d, len),
{
    lemma_fundamental_div_mod(x, len);
    lemma_mod_multiples_vanish(x / len, x % len + d, len);
    assert(len * (x / len) + (x % len + d) == x + d);
}

/// One step forward and one step back along an axis cancel, and a step leads back to the
/// same cell only on an axis of length one.
pub proof fn lemma_wrap_step(x: int, len: int)
    requires
        len > 0,
    ensures
        wrap(wrap(x + 1, len) - 1, len) == wrap(x, len),
        wrap(wrap(x - 1, len) + 1, len) == wrap(x, len),
        wrap(x + 1, len) == wrap(x, len) <==> len == 1,
        wrap(x - 1, len) == wrap(x, len) <==> len == 1,
{
    lemma_wrap_shift(x + 1, -1, len);
    lemma_wrap_shift(x - 1, 1, len);
    lemma_wrap_shift(x, 1, len);
    lemma_wrap_shift(x, -1, len);
    lemma_mod_bound(x, len);
    let r = x % len;
    if r + 1 < len {
        lemma_small_mod((r + 1) as nat, len as nat);
    } else {
        lemma_mod_self_0(len);
    }
    if r >= 1 {
        lemma_small_mod((r - 1) as nat, len as nat);
    } else {
        lemma_wrap_periodic(0, 0, len);
    }
}

/// A flat position determines its column and row, and lies within the grid.
pub proof fn lemma_flat(x: int, y: int, w: int, h: int)
    requires
        0 <= x < w,
        0 <= y < h,
    ensures
        0 <= flat(x, y, w) < w * h,
        flat(x, y, w) % w == x,
        flat(x, y, w) / w == y,
{
    lemma_fundamental_div_mod_converse(y * w + x, w, y, x);
    assert(y * w + x < w * h) by (nonlinear_arith)
        requires
            0 <= x < w,
            0 <= y < h,
    ;
    assert(0 <= y * w + x) by (nonlinear_arith)
        requires
            0 <= x < w,
            0 <= y < h,
    ;
}

/// A position within the grid splits into a column and a row of the grid.
pub proof fn lemma_unflat(s: int, w: int, h: int)
    requires
        0 < w,
        0 <= s < w * h,
    ensures
        0 <= s % w < w,
        0 <= s / w < h,
        flat(s % w, s / w, w) == s,
{
    lemma_fundamental_div_mod(s, w);
    lemma_mod_bound(s, w);
    lemma_div_pos_is_pos(s, w);
    assert(s / w < h) by (nonlinear_arith)
        requires
            0 < w,
            0 <= s < w * h,
            s == w * (s / w) + s % w,
            0 <= s % w < w,
    ;
    assert(w * (s / w) == (s / w) * w) by (nonlinear_arith);
}

} // verus!
