//! General properties of the pool arithmetic, stated over the model and
//! proved for all inputs: the weight vector sums to one, proportional
//! claims sit at the equilibrium ratio, a no-op swap is always accepted,
//! and the swap check is monotone in its tolerance.

use vstd::prelude::*;
use crate::model::{
    dot, sum, weight_nums, all_nonneg, lengths_match, ratio_num, ratio_den,
    balances_after, claims_after, swap_accepted, within_tolerance, abs_of,
    lemma_dot_nonneg,
};
use vstd::arithmetic::mul::lemma_mul_is_commutative;
use vstd::arithmetic::mul::lemma_mul_nonnegative;
use vstd::arithmetic::mul::lemma_mul_inequality;

verus! {

/// The weight vector sums to exactly one: the numerators `p[j] * b[j]` of
/// the weights sum to exactly their common denominator `dot(p, b)`, so the
/// exact rational sum of the weights is `dot(p, b) / dot(p, b) = 1`
/// whenever the pool value is nonzero.
pub proof fn lemma_weights_sum_to_one(b: Seq<int>, p: Seq<int>)
    requires
        b.len() == p.len(),
    ensures
        sum(weight_nums(b, p)) == dot(p, b),
    decreases b.len(),
{
    if b.len() > 0 {
        lemma_weights_sum_to_one(b.drop_last(), p.drop_last());
        assert(weight_nums(b, p).drop_last() =~= weight_nums(b.drop_last(), p.drop_last()));
        assert(weight_nums(b, p).last() == p.last() * b.last());
    }
}

proof fn lemma_dot_scaled(p: Seq<int>, c: Seq<int>, b: Seq<int>, x: int, y: int)
    requires
        p.len() == c.len(),
        p.len() == b.len(),
        forall|k: int| 0 <= k < c.len() ==> x * c[k] == y * b[k],
    ensures
        x * dot(p, c) == y * dot(p, b),
    decreases p.len(),
{
    if p.len() == 0 {
        assert(x * 0 == 0) by (nonlinear_arith);
        assert(y * 0 == 0) by (nonlinear_arith);
    } else {
        assert(forall|k: int|
            0 <= k < c.drop_last().len() ==> x * c.drop_last()[k] == y * b.drop_last()[k]);
        lemma_dot_scaled(p.drop_last(), c.drop_last(), b.drop_last(), x, y);
        let dc = dot(p.drop_last(), c.drop_last());
        let db = dot(p.drop_last(), b.drop_last());
        let pl = p.last();
        let cl = c.last();
        let bl = b.last();
        assert(x * cl == y * bl);
        assert(x * (dc + pl * cl) == y * (db + pl * bl)) by (nonlinear_arith)
            requires
                x * dc == y * db,
                x * cl == y * bl,
        ;
    }
}

/// Equilibrium: when every asset's balance stands in the same proportion
/// to its claims outstanding (all cross products `b[j] * c[k]` and
/// `b[k] * c[j]` agree), each asset with claims outstanding has imbalance
/// ratio exactly one: the ratio's numerator `b[j] * L` equals its
/// denominator `B * c[j]`.
pub proof fn lemma_equilibrium(b: Seq<int>, c: Seq<int>, p: Seq<int>)
    requires
        lengths_match(b, c, p),
        forall|j: int, k: int|
            0 <= j < b.len() && 0 <= k < b.len() ==> #[trigger] (b[j] * c[k]) == b[k] * c[j],
    ensures
        forall|j: int|
            0 <= j < b.len() && c[j] != 0 ==> #[trigger] ratio_num(b, c, p, j) == ratio_den(
                b,
                c,
                p,
                j,
            ),
{
    assert forall|j: int| 0 <= j < b.len() && c[j] != 0 implies #[trigger] ratio_num(b, c, p, j)
        == ratio_den(b, c, p, j) by {
        assert forall|k: int| 0 <= k < c.len() implies b[j] * c[k] == c[j] * b[k] by {
            lemma_mul_is_commutative(b[k], c[j]);
        };
        lemma_dot_scaled(p, c, b, b[j], c[j]);
        lemma_mul_is_commutative(c[j], dot(p, b));
    };
}

proof fn lemma_ratio_den_nonneg(b: Seq<int>, c: Seq<int>, p: Seq<int>, j: int)
    requires
        lengths_match(b, c, p),
        all_nonneg(b),
        all_nonneg(c),
        all_nonneg(p),
        0 <= j < c.len(),
    ensures
        ratio_den(b, c, p, j) >= 0,
{
    if c[j] != 0 {
        lemma_dot_nonneg(p, b);
        lemma_mul_nonnegative(dot(p, b), c[j]);
    }
}

/// A no-op swap (nothing in, nothing out) is accepted at every tolerance:
/// the derived post-swap state is the pre-swap state itself, so no ratio
/// moves at all.
pub proof fn lemma_noop_swap(
    b: Seq<int>,
    c: Seq<int>,
    p: Seq<int>,
    i: int,
    o: int,
    fee: int,
    delta: int,
)
    requires
        lengths_match(b, c, p),
        all_nonneg(b),
        all_nonneg(c),
        all_nonneg(p),
        0 <= i < b.len(),
        0 <= o < b.len(),
        0 <= fee,
        0 <= delta,
    ensures
        swap_accepted(b, c, p, i, o, 0, 0, fee, delta),
{
    let ba = balances_after(b, i, o, 0, 0);
    let ca = claims_after(c, i, 0, fee);
    assert(0 * fee == 0) by (nonlinear_arith);
    assert(ba =~= b);
    assert(ca =~= c);
    assert forall|j: int| 0 <= j < b.len() implies within_tolerance(
        #[trigger] ratio_num(b, c, p, j),
        ratio_den(b, c, p, j),
        ratio_num(ba, ca, p, j),
        ratio_den(ba, ca, p, j),
        delta,
    ) by {
        let nj = ratio_num(b, c, p, j);
        let dj = ratio_den(b, c, p, j);
        assert(ratio_num(ba, ca, p, j) == nj);
        assert(ratio_den(ba, ca, p, j) == dj);
        assert(abs_of(nj * dj - nj * dj) == 0);
        lemma_ratio_den_nonneg(b, c, p, j);
        lemma_mul_nonnegative(dj, dj);
        lemma_mul_nonnegative(delta, dj * dj);
    };
}

/// Monotone tolerance: widening the tolerance never turns an accepted swap
/// into a rejected one. For a fixed before/after pair the check is
/// therefore a threshold predicate: it accepts exactly the tolerances at
/// or above the largest ratio movement, and rejects every tolerance below
/// it (the contrapositive of this lemma).
pub proof fn lemma_tolerance_monotone(
    b: Seq<int>,
    c: Seq<int>,
    p: Seq<int>,
    i: int,
    o: int,
    ai: int,
    ao: int,
    fee: int,
    d1: int,
    d2: int,
)
    requires
        lengths_match(b, c, p),
        all_nonneg(b),
        all_nonneg(c),
        all_nonneg(p),
        0 <= i < b.len(),
        0 <= o < b.len(),
        all_nonneg(balances_after(b, i, o, ai, ao)),
        all_nonneg(claims_after(c, i, ai, fee)),
        0 <= d1 <= d2,
        swap_accepted(b, c, p, i, o, ai, ao, fee, d1),
    ensures
        swap_accepted(b, c, p, i, o, ai, ao, fee, d2),
{
    let ba = balances_after(b, i, o, ai, ao);
    let ca = claims_after(c, i, ai, fee);
    assert forall|j: int| 0 <= j < b.len() implies within_tolerance(
        #[trigger] ratio_num(b, c, p, j),
        ratio_den(b, c, p, j),
        ratio_num(ba, ca, p, j),
        ratio_den(ba, ca, p, j),
        d2,
    ) by {
        assert(within_tolerance(
            ratio_num(b, c, p, j),
            ratio_den(b, c, p, j),
            ratio_num(ba, ca, p, j),
            ratio_den(ba, ca, p, j),
            d1,
        ));
        let dj = ratio_den(b, c, p, j);
        let da = ratio_den(ba, ca, p, j);
        lemma_ratio_den_nonneg(b, c, p, j);
        lemma_ratio_den_nonneg(ba, ca, p, j);
        lemma_mul_nonnegative(dj, da);
        lemma_mul_inequality(d1, d2, dj * da);
    };
}

} // verus!

