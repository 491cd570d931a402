//! Exact wide arithmetic: products of the form `a * m` with `a` a 128-bit
//! value and `m` a 64-bit value do not fit a machine integer, so they are
//! carried as two 64-bit limbs `hi * LIMB + lo`.

use vstd::prelude::*;
use vstd::arithmetic::div_mod::lemma_fundamental_div_mod;
use vstd::arithmetic::div_mod::lemma_mod_bound;

verus! {

/// Base of one limb: a wide value `(hi, lo)` stands for `hi * LIMB + lo`.
pub const LIMB: u128 = 0x1_0000_0000_0000_0000;

/// Value of a wide pair as a mathematical integer.
pub open spec fn wide_value(w: (u128, u128)) -> int {
    w.0 * LIMB + w.1
}

proof fn lemma_mul_below_square(x: int, y: int, l: int) by (nonlinear_arith)
    requires
        0 <= x < l,
        0 <= y < l,
    ensures
        x * y <= (l - 1) * (l - 1),
        x * y < l * l,
{
}

proof fn lemma_quotient_below(a: int, ah: int, al: int, l: int) by (nonlinear_arith)
    requires
        l > 0,
        a == ah * l + al,
        al >= 0,
        ah >= 0,
        a < l * l,
    ensures
        ah < l,
{
}

proof fn lemma_limb_recombine(l: int, a: int, m: int, ah: int, al: int, q: int, lo: int) by (nonlinear_arith)
    requires
        l > 1,
        a == ah * l + al,
        0 <= al < l,
        0 <= ah < l,
        a < l * l,
        0 <= m < l,
        al * m == q * l + lo,
        0 <= lo < l,
        0 <= q,
    ensures
        (ah * m + q) * l + lo == a * m,
        ah * m + q < l * l,
{
}

/// Exact product of a 128-bit value and a 64-bit value, as two limbs.
pub fn mul_wide(a: u128, m: u64) -> (r: (u128, u128))
    ensures
        wide_value(r) == a * m,
        r.1 < LIMB,
{
    let ah: u128 = a / LIMB;
    let al: u128 = a % LIMB;
    let mw: u128 = m as u128;
    proof {
        lemma_fundamental_div_mod(a as int, LIMB as int);
        lemma_mod_bound(a as int, LIMB as int);
        lemma_quotient_below(a as int, ah as int, al as int, LIMB as int);
        lemma_mul_below_square(al as int, mw as int, LIMB as int);
        lemma_mul_below_square(ah as int, mw as int, LIMB as int);
    }
    let p_lo: u128 = al * mw;
    let p_hi: u128 = ah * mw;
    let q: u128 = p_lo / LIMB;
    let lo: u128 = p_lo % LIMB;
    proof {
        lemma_fundamental_div_mod(p_lo as int, LIMB as int);
        lemma_mod_bound(p_lo as int, LIMB as int);
        lemma_limb_recombine(
            LIMB as int,
            a as int,
            mw as int,
            ah as int,
            al as int,
            q as int,
            lo as int,
        );
    }
    let hi: u128 = p_hi + q;
    (hi, lo)
}

proof fn lemma_lex_le(xh: int, xl: int, yh: int, yl: int, l: int) by (nonlinear_arith)
    requires
        l > 0,
        0 <= xl < l,
        0 <= yl < l,
        0 <= xh,
        0 <= yh,
    ensures
        (xh * l + xl <= yh * l + yl) == (xh < yh || (xh == yh && xl <= yl)),
{
}

/// Order two wide values: limbwise lexicographic comparison.
pub fn wide_le(x: (u128, u128), y: (u128, u128)) -> (r: bool)
    requires
        x.1 < LIMB,
        y.1 < LIMB,
    ensures
        r == (wide_value(x) <= wide_value(y)),
{
    proof {
        lemma_lex_le(x.0 as int, x.1 as int, y.0 as int, y.1 as int, LIMB as int);
    }
    if x.0 != y.0 {
        x.0 < y.0
    } else {
        x.1 <= y.1
    }
}

} // verus!
