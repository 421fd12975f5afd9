//! Luminance rendering: maps a normalized luminance onto the terminal's
//! 24-step grayscale palette ramp, indices 232 through 255.

use vstd::prelude::*;
use vstd::arithmetic::div_mod::{
    lemma_div_is_ordered, lemma_div_multiples_vanish, lemma_fundamental_div_mod,
    lemma_multiply_divide_lt,
};
use vstd::arithmetic::mul::lemma_mul_inequality;

verus! {

/// Palette index for the normalized luminance `num / den`:
/// `232 + floor(num / den * 23)`, which lies in `[232, 255]`
/// whenever `0 <= num <= den`.
pub open spec fn spec_render(num: int, den: int) -> int {
    232 + (num * 23) / den
}

/// Converts the normalized luminance `num / den` (a value in `[0, 1]`)
/// to the palette index of its grayscale shade.
pub fn render(num: u32, den: u32) -> (idx: u8)
    requires
        0 < den,
        num <= den,
    ensures
        idx == spec_render(num as int, den as int),
        232 <= idx <= 255,
{
    proof {
        lemma_mul_inequality(num as int, den as int, 23);
        lemma_div_is_ordered(num as int * 23, den as int * 23, den as int);
        lemma_div_multiples_vanish(23, den as int);
        assert(num as int * 23 == 23 * (num as int)) by (nonlinear_arith);
        assert((den as int * 23) / (den as int) == 23) by {
            assert(den as int * 23 == (den as int) * 23) by (nonlinear_arith);
        };
        lemma_div_is_ordered(0, num as int * 23, den as int);
    }
    let q: u64 = (num as u64) * 23 / (den as u64);
    232 + (q as u8)
}

/// The palette index is monotonically non-decreasing in the normalized
/// luminance: if `n1 / d1 <= n2 / d2` (as rationals, stated by cross
/// multiplication), then the first shade is no brighter than the second.
pub proof fn lemma_render_monotone(n1: int, d1: int, n2: int, d2: int)
    requires
        0 < d1,
        0 < d2,
        0 <= n1,
        0 <= n2,
        n1 * d2 <= n2 * d1,
    ensures
        spec_render(n1, d1) <= spec_render(n2, d2),
{
    let a = n1 * 23;
    let b = n2 * 23;
    let q = a / d1;
    lemma_fundamental_div_mod(a, d1);
    assert(q * d1 <= a);
    assert(a * d2 <= b * d1) by (nonlinear_arith)
        requires n1 * d2 <= n2 * d1, a == n1 * 23, b == n2 * 23;
    assert(q * d1 * d2 <= a * d2) by (nonlinear_arith)
        requires q * d1 <= a, 0 < d2;
    assert((q * d2) * d1 <= b * d1) by (nonlinear_arith)
        requires q * d1 * d2 <= b * d1;
    assert(q * d2 <= b) by (nonlinear_arith)
        requires (q * d2) * d1 <= b * d1, 0 < d1;
    lemma_div_multiples_vanish(q, d2);
    assert(d2 * q == q * d2) by (nonlinear_arith);
    lemma_div_is_ordered(q * d2, b, d2);
}

} // verus!
