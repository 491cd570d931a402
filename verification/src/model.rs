//! Mathematical model of the pool: scalar products over integer sequences,
//! the imbalance ratio of each asset as an exact rational, the hypothetical
//! post-swap state, and the swap-acceptance predicate. The executable
//! functions state their contracts over these definitions.

use vstd::prelude::*;
use vstd::arithmetic::mul::lemma_mul_nonnegative;

verus! {

/// Fixed-point scale: fee rates and tolerances are given in billionths.
pub const SCALE: u64 = 1_000_000_000;

/// A sequence of machine words as mathematical integers.
pub open spec fn ints(s: Seq<u64>) -> Seq<int> {
    s.map_values(|x: u64| x as int)
}

/// Sum of pointwise products of two sequences. The aggregate pool value is
/// `dot(prices, balances)`; the aggregate claim value is
/// `dot(prices, claims)`.
pub open spec fn dot(p: Seq<int>, b: Seq<int>) -> int
    decreases p.len(),
{
    if p.len() == 0 || b.len() == 0 {
        0
    } else {
        dot(p.drop_last(), b.drop_last()) + p.last() * b.last()
    }
}

/// Sum of the entries of a sequence.
pub open spec fn sum(s: Seq<int>) -> int
    decreases s.len(),
{
    if s.len() == 0 {
        0
    } else {
        sum(s.drop_last()) + s.last()
    }
}

/// Numerators of the weight vector over the common denominator
/// `dot(p, b)`: weight `j` is the rational `p[j] * b[j] / dot(p, b)`.
pub open spec fn weight_nums(b: Seq<int>, p: Seq<int>) -> Seq<int> {
    Seq::new(b.len(), |j: int| p[j] * b[j])
}

/// Entries of a sequence are all non-negative.
pub open spec fn all_nonneg(s: Seq<int>) -> bool {
    forall|k: int| 0 <= k < s.len() ==> s[k] >= 0
}

/// The three state sequences are index-aligned.
pub open spec fn lengths_match(b: Seq<int>, c: Seq<int>, p: Seq<int>) -> bool {
    b.len() == p.len() && b.len() == c.len()
}

pub proof fn lemma_dot_take_step(p: Seq<int>, b: Seq<int>, j: int)
    requires
        p.len() == b.len(),
        0 <= j < p.len(),
    ensures
        dot(p.take(j + 1), b.take(j + 1)) == dot(p.take(j), b.take(j)) + p[j] * b[j],
{
    assert(p.take(j + 1).drop_last() =~= p.take(j));
    assert(b.take(j + 1).drop_last() =~= b.take(j));
    assert(p.take(j + 1).last() == p[j]);
    assert(b.take(j + 1).last() == b[j]);
}

pub proof fn lemma_dot_nonneg(p: Seq<int>, b: Seq<int>)
    requires
        p.len() == b.len(),
        all_nonneg(p),
        all_nonneg(b),
    ensures
        dot(p, b) >= 0,
    decreases p.len(),
{
    if p.len() > 0 {
        assert(all_nonneg(p.drop_last()));
        assert(all_nonneg(b.drop_last()));
        lemma_dot_nonneg(p.drop_last(), b.drop_last());
        lemma_mul_nonnegative(p.last(), b.last());
    }
}

pub proof fn lemma_dot_take_le(p: Seq<int>, b: Seq<int>, j: int)
    requires
        p.len() == b.len(),
        all_nonneg(p),
        all_nonneg(b),
        0 <= j <= p.len(),
    ensures
        dot(p.take(j), b.take(j)) <= dot(p, b),
    decreases p.len() - j,
{
    if j == p.len() {
        assert(p.take(j) =~= p);
        assert(b.take(j) =~= b);
    } else {
        lemma_dot_take_step(p, b, j);
        lemma_mul_nonnegative(p[j], b[j]);
        lemma_dot_take_le(p, b, j + 1);
    }
}

pub proof fn lemma_dot_term_le(p: Seq<int>, b: Seq<int>, j: int)
    requires
        p.len() == b.len(),
        all_nonneg(p),
        all_nonneg(b),
        0 <= j < p.len(),
    ensures
        p[j] * b[j] <= dot(p, b),
{
    lemma_dot_take_step(p, b, j);
    assert(all_nonneg(p.take(j)));
    assert(all_nonneg(b.take(j)));
    lemma_dot_nonneg(p.take(j), b.take(j));
    lemma_dot_take_le(p, b, j + 1);
}

/// Numerator of asset `j`'s imbalance ratio
/// `(balance[j] * L) / (B * claims[j])`; an asset without claims
/// outstanding has no ratio, modelled as the rational -1/1.
pub open spec fn ratio_num(b: Seq<int>, c: Seq<int>, p: Seq<int>, j: int) -> int {
    if c[j] == 0 {
        -1
    } else {
        b[j] * dot(p, c)
    }
}

/// Denominator of asset `j`'s imbalance ratio; 1 for the undefined case.
pub open spec fn ratio_den(b: Seq<int>, c: Seq<int>, p: Seq<int>, j: int) -> int {
    if c[j] == 0 {
        1
    } else {
        dot(p, b) * c[j]
    }
}

pub open spec fn abs_of(x: int) -> int {
    if x < 0 {
        -x
    } else {
        x
    }
}

/// The rationals `n1/d1` and `n2/d2` differ by at most `delta/SCALE`,
/// stated exactly by cross-multiplication (for positive denominators).
pub open spec fn within_tolerance(n1: int, d1: int, n2: int, d2: int, delta: int) -> bool {
    abs_of(n2 * d1 - n1 * d2) * SCALE <= delta * (d1 * d2)
}

/// The ratio computation degenerates: the pool value is zero while some
/// asset still has claims outstanding, so a defined ratio would divide by
/// zero.
pub open spec fn degenerate(b: Seq<int>, c: Seq<int>, p: Seq<int>) -> bool {
    dot(p, b) == 0 && exists|j: int| 0 <= j < c.len() && c[j] != 0
}

/// Balances after the proposed swap: `ai` of asset `i` comes in, `ao` of
/// asset `o` goes out, applied in that order.
pub open spec fn balances_after(b: Seq<int>, i: int, o: int, ai: int, ao: int) -> Seq<int> {
    let stepped = b.update(i, b[i] + ai);
    stepped.update(o, stepped[o] - ao)
}

/// Claims after the proposed swap: the fee charged on the input leg mints
/// claim supply on asset `i`, rounded down to a whole claim unit.
pub open spec fn claims_after(c: Seq<int>, i: int, ai: int, fee: int) -> Seq<int> {
    c.update(i, c[i] + (ai * fee) / (SCALE as int))
}

/// The numbers of a pool state stay within machine range: the aggregate
/// values fit the wide accumulator, and every ratio's numerator and
/// denominator fit one machine word.
pub open spec fn state_fits(b: Seq<int>, c: Seq<int>, p: Seq<int>) -> bool {
    &&& dot(p, b) <= u128::MAX
    &&& dot(p, c) <= u128::MAX
    &&& forall|j: int| 0 <= j < b.len() ==> #[trigger] (b[j] * dot(p, c)) <= u64::MAX
    &&& forall|j: int| 0 <= j < c.len() ==> #[trigger] (dot(p, b) * c[j]) <= u64::MAX
}

/// Every post-swap balance and claim amount is representable: the output
/// asset keeps a non-negative balance and nothing exceeds one machine word.
pub open spec fn swap_in_range(
    b: Seq<int>,
    c: Seq<int>,
    i: int,
    o: int,
    ai: int,
    ao: int,
    fee: int,
) -> bool {
    let ba = balances_after(b, i, o, ai, ao);
    let ca = claims_after(c, i, ai, fee);
    &&& forall|j: int| 0 <= j < ba.len() ==> 0 <= #[trigger] ba[j] <= u64::MAX
    &&& forall|j: int| 0 <= j < ca.len() ==> 0 <= #[trigger] ca[j] <= u64::MAX
}

/// The swap-acceptance predicate: every asset's imbalance ratio moves by at
/// most `delta/SCALE` between the pre-swap state and the post-swap state.
pub open spec fn swap_accepted(
    b: Seq<int>,
    c: Seq<int>,
    p: Seq<int>,
    i: int,
    o: int,
    ai: int,
    ao: int,
    fee: int,
    delta: int,
) -> bool {
    let ba = balances_after(b, i, o, ai, ao);
    let ca = claims_after(c, i, ai, fee);
    forall|j: int|
        0 <= j < b.len() ==> within_tolerance(
            #[trigger] ratio_num(b, c, p, j),
            ratio_den(b, c, p, j),
            ratio_num(ba, ca, p, j),
            ratio_den(ba, ca, p, j),
            delta,
        )
}

} // verus!
