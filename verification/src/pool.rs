//! The executable core: value-weighted portfolio weights, aggregate pool
//! and claim values, per-asset imbalance ratios, and the swap-acceptance
//! check. Every function is a pure computation over caller-supplied
//! snapshots; nothing is retained between calls.

use vstd::prelude::*;
use crate::arith::{mul_wide, wide_le};
use crate::model::{
    ints, dot, all_nonneg, degenerate, ratio_num, ratio_den, state_fits, swap_in_range,
    balances_after, claims_after, swap_accepted, within_tolerance, SCALE,
    lemma_dot_take_step, lemma_dot_take_le, lemma_dot_term_le, lemma_dot_nonneg,
};
use vstd::arithmetic::mul::lemma_mul_strictly_positive;
use vstd::arithmetic::mul::lemma_mul_upper_bound;
use vstd::arithmetic::mul::lemma_mul_is_commutative;

verus! {

/// Why a call was rejected before any arithmetic ran.
#[derive(Clone, Copy, Debug, PartialEq, Eq, Structural)]
pub enum PoolError {
    /// The input sequences do not have equal lengths.
    LengthMismatch,
    /// A weight or ratio would divide by a zero aggregate value.
    DivisionByZero,
}

/// An exact non-negative rational, held as numerator and denominator.
#[derive(Clone, Copy, Debug, PartialEq, Eq, Structural)]
pub struct Ratio {
    pub num: u64,
    pub den: u64,
}

/// The imbalance ratio of one asset: a defined rational, or undefined for
/// an asset with no claims outstanding. (A valid ratio is never negative,
/// so the undefined case is out of band by construction.)
#[derive(Clone, Copy, Debug, PartialEq, Eq, Structural)]
pub enum ImbalanceRatio {
    Defined(Ratio),
    Undefined,
}

impl ImbalanceRatio {
    /// Numerator in the model; the undefined case stands for -1/1.
    pub open spec fn spec_num(self) -> int {
        match self {
            ImbalanceRatio::Defined(r) => r.num as int,
            ImbalanceRatio::Undefined => -1,
        }
    }

    /// Denominator in the model; the undefined case stands for -1/1.
    pub open spec fn spec_den(self) -> int {
        match self {
            ImbalanceRatio::Defined(r) => r.den as int,
            ImbalanceRatio::Undefined => 1,
        }
    }
}

/// Value-weighted portfolio shares: weight `j` is
/// `prices[j] * balances[j] / B` with `B = dot(prices, balances)`, returned
/// as exact rationals over the common denominator `B`.
pub fn weights(balances: &Vec<u64>, prices: &Vec<u64>) -> (r: Result<Vec<Ratio>, PoolError>)
    requires
        dot(ints(prices@), ints(balances@)) <= u64::MAX,
    ensures
        (r == Err::<Vec<Ratio>, PoolError>(PoolError::LengthMismatch)) <==> balances@.len()
            != prices@.len(),
        (r == Err::<Vec<Ratio>, PoolError>(PoolError::DivisionByZero)) <==> (balances@.len()
            == prices@.len() && balances@.len() > 0 && dot(ints(prices@), ints(balances@)) == 0),
        r matches Ok(w) ==> {
            &&& w@.len() == balances@.len()
            &&& forall|j: int|
                0 <= j < w@.len() ==> (#[trigger] w@[j]).num == prices@[j] * balances@[j]
                    && w@[j].den == dot(ints(prices@), ints(balances@))
        },
{
    let n = balances.len();
    if prices.len() != n {
        return Err(PoolError::LengthMismatch);
    }
    let ghost pi = ints(prices@);
    let ghost bi = ints(balances@);
    proof {
        assert(all_nonneg(pi));
        assert(all_nonneg(bi));
    }
    let mut acc: u128 = 0;
    let mut j: usize = 0;
    while j < n
        invariant
            n == balances@.len(),
            n == prices@.len(),
            pi == ints(prices@),
            bi == ints(balances@),
            all_nonneg(pi),
            all_nonneg(bi),
            j <= n,
            acc == dot(pi.take(j as int), bi.take(j as int)),
            dot(pi, bi) <= u64::MAX,
        decreases n - j,
    {
        proof {
            lemma_dot_take_step(pi, bi, j as int);
            lemma_dot_term_le(pi, bi, j as int);
            lemma_dot_take_le(pi, bi, j as int + 1);
        }
        acc = acc + (prices[j] as u128) * (balances[j] as u128);
        j = j + 1;
    }
    proof {
        assert(pi.take(n as int) =~= pi);
        assert(bi.take(n as int) =~= bi);
    }
    let total: u64 = acc as u64;
    if n > 0 && total == 0 {
        return Err(PoolError::DivisionByZero);
    }
    let mut w: Vec<Ratio> = Vec::new();
    let mut j: usize = 0;
    while j < n
        invariant
            n == balances@.len(),
            n == prices@.len(),
            pi == ints(prices@),
            bi == ints(balances@),
            all_nonneg(pi),
            all_nonneg(bi),
            j <= n,
            w@.len() == j,
            total == dot(pi, bi),
            dot(pi, bi) <= u64::MAX,
            forall|k: int|
                0 <= k < j ==> (#[trigger] w@[k]).num == prices@[k] * balances@[k] && w@[k].den
                    == total,
        decreases n - j,
    {
        proof {
            lemma_dot_term_le(pi, bi, j as int);
            lemma_dot_nonneg(pi, bi);
        }
        let num_wide: u128 = (prices[j] as u128) * (balances[j] as u128);
        let num: u64 = num_wide as u64;
        w.push(Ratio { num, den: total });
        j = j + 1;
    }
    Ok(w)
}

/// Aggregate pool value `B = dot(prices, balances)` and aggregate claim
/// value `L = dot(prices, claims)`, computed together in one pass.
pub fn aggregate_values(balances: &Vec<u64>, claims: &Vec<u64>, prices: &Vec<u64>) -> (r: Result<
    (u128, u128),
    PoolError,
>)
    requires
        dot(ints(prices@), ints(balances@)) <= u128::MAX,
        dot(ints(prices@), ints(claims@)) <= u128::MAX,
    ensures
        r is Err <==> !(balances@.len() == prices@.len() && balances@.len() == claims@.len()),
        r is Err ==> r == Err::<(u128, u128), PoolError>(PoolError::LengthMismatch),
        r matches Ok(v) ==> v.0 == dot(ints(prices@), ints(balances@)) && v.1 == dot(
            ints(prices@),
            ints(claims@),
        ),
{
    let n = balances.len();
    if prices.len() != n || claims.len() != n {
        return Err(PoolError::LengthMismatch);
    }
    let ghost pi = ints(prices@);
    let ghost bi = ints(balances@);
    let ghost ci = ints(claims@);
    proof {
        assert(all_nonneg(pi));
        assert(all_nonneg(bi));
        assert(all_nonneg(ci));
    }
    let mut acc_b: u128 = 0;
    let mut acc_l: u128 = 0;
    let mut j: usize = 0;
    while j < n
        invariant
            n == balances@.len(),
            n == prices@.len(),
            n == claims@.len(),
            pi == ints(prices@),
            bi == ints(balances@),
            ci == ints(claims@),
            all_nonneg(pi),
            all_nonneg(bi),
            all_nonneg(ci),
            j <= n,
            acc_b == dot(pi.take(j as int), bi.take(j as int)),
            acc_l == dot(pi.take(j as int), ci.take(j as int)),
            dot(pi, bi) <= u128::MAX,
            dot(pi, ci) <= u128::MAX,
        decreases n - j,
    {
        proof {
            lemma_dot_take_step(pi, bi, j as int);
            lemma_dot_take_step(pi, ci, j as int);
            lemma_dot_term_le(pi, bi, j as int);
            lemma_dot_term_le(pi, ci, j as int);
            lemma_dot_take_le(pi, bi, j as int + 1);
            lemma_dot_take_le(pi, ci, j as int + 1);
        }
        acc_b = acc_b + (prices[j] as u128) * (balances[j] as u128);
        acc_l = acc_l + (prices[j] as u128) * (claims[j] as u128);
        j = j + 1;
    }
    proof {
        assert(pi.take(n as int) =~= pi);
        assert(bi.take(n as int) =~= bi);
        assert(ci.take(n as int) =~= ci);
    }
    Ok((acc_b, acc_l))
}

/// Per-asset imbalance ratios: asset `j`'s ratio is
/// `(balances[j] * L) / (B * claims[j])`, the asset's claim-implied fair
/// value share over its actual value share; an asset with no claims
/// outstanding gets `Undefined`. A ratio of one is the equilibrium point.
pub fn imbalance_ratios(balances: &Vec<u64>, claims: &Vec<u64>, prices: &Vec<u64>) -> (r: Result<
    Vec<ImbalanceRatio>,
    PoolError,
>)
    requires
        state_fits(ints(balances@), ints(claims@), ints(prices@)),
    ensures
        (r == Err::<Vec<ImbalanceRatio>, PoolError>(PoolError::LengthMismatch)) <==> !(
        balances@.len() == prices@.len() && balances@.len() == claims@.len()),
        (r == Err::<Vec<ImbalanceRatio>, PoolError>(PoolError::DivisionByZero)) <==> (
        balances@.len() == prices@.len() && balances@.len() == claims@.len() && degenerate(
            ints(balances@),
            ints(claims@),
            ints(prices@),
        )),
        r matches Ok(v) ==> {
            &&& v@.len() == balances@.len()
            &&& forall|j: int|
                0 <= j < v@.len() ==> (#[trigger] v@[j]).spec_num() == ratio_num(
                    ints(balances@),
                    ints(claims@),
                    ints(prices@),
                    j,
                ) && v@[j].spec_den() == ratio_den(
                    ints(balances@),
                    ints(claims@),
                    ints(prices@),
                    j,
                )
            &&& forall|j: int|
                0 <= j < v@.len() ==> ((#[trigger] v@[j]) is Undefined <==> claims@[j] == 0)
            &&& forall|j: int|
                0 <= j < v@.len() ==> match #[trigger] v@[j] {
                    ImbalanceRatio::Defined(rt) => rt.den > 0,
                    ImbalanceRatio::Undefined => true,
                }
        },
{
    let n = balances.len();
    let (total_b, total_l) = match aggregate_values(balances, claims, prices) {
        Ok(v) => v,
        Err(e) => {
            return Err(e);
        },
    };
    let ghost pi = ints(prices@);
    let ghost bi = ints(balances@);
    let ghost ci = ints(claims@);
    let mut any_claims = false;
    let mut j: usize = 0;
    while j < n
        invariant
            n == balances@.len(),
            n == prices@.len(),
            n == claims@.len(),
            j <= n,
            any_claims <==> exists|k: int| 0 <= k < j && claims@[k] != 0,
        decreases n - j,
    {
        if claims[j] != 0 {
            any_claims = true;
        }
        j = j + 1;
    }
    if total_b == 0 && any_claims {
        proof {
            let k = choose|k: int| 0 <= k < n && claims@[k] != 0;
            assert(ints(claims@)[k] != 0);
        }
        return Err(PoolError::DivisionByZero);
    }
    proof {
        if degenerate(bi, ci, pi) {
            let k = choose|k: int| 0 <= k < ci.len() && ci[k] != 0;
            assert(claims@[k] != 0);
        }
    }
    let mut out: Vec<ImbalanceRatio> = Vec::new();
    let mut j: usize = 0;
    while j < n
        invariant
            n == balances@.len(),
            n == prices@.len(),
            n == claims@.len(),
            pi == ints(prices@),
            bi == ints(balances@),
            ci == ints(claims@),
            j <= n,
            out@.len() == j,
            total_b == dot(pi, bi),
            total_l == dot(pi, ci),
            total_b == 0 ==> forall|k: int| 0 <= k < n ==> claims@[k] == 0,
            state_fits(bi, ci, pi),
            forall|k: int|
                0 <= k < j ==> (#[trigger] out@[k]).spec_num() == ratio_num(bi, ci, pi, k)
                    && out@[k].spec_den() == ratio_den(bi, ci, pi, k),
            forall|k: int| 0 <= k < j ==> ((#[trigger] out@[k]) is Undefined <==> claims@[k] == 0),
            forall|k: int|
                0 <= k < j ==> match #[trigger] out@[k] {
                    ImbalanceRatio::Defined(rt) => rt.den > 0,
                    ImbalanceRatio::Undefined => true,
                },
        decreases n - j,
    {
        if claims[j] == 0 {
            out.push(ImbalanceRatio::Undefined);
        } else {
            proof {
                assert(bi[j as int] * dot(pi, ci) <= u64::MAX);
                assert(dot(pi, bi) * ci[j as int] <= u64::MAX);
            }
            let num_wide: u128 = (balances[j] as u128) * total_l;
            let den_wide: u128 = total_b * (claims[j] as u128);
            proof {
                lemma_mul_strictly_positive(total_b as int, claims@[j as int] as int);
            }
            let num: u64 = num_wide as u64;
            let den: u64 = den_wide as u64;
            out.push(ImbalanceRatio::Defined(Ratio { num, den }));
        }
        j = j + 1;
    }
    Ok(out)
}

/// Two defined ratios differ by at most `delta/SCALE`, decided exactly by
/// cross-multiplication in wide arithmetic.
fn ratio_close(r1: Ratio, r2: Ratio, delta: u64) -> (res: bool)
    requires
        r1.den > 0,
        r2.den > 0,
    ensures
        res == within_tolerance(
            r1.num as int,
            r1.den as int,
            r2.num as int,
            r2.den as int,
            delta as int,
        ),
{
    proof {
        lemma_mul_upper_bound(r2.num as int, u64::MAX as int, r1.den as int, u64::MAX as int);
        lemma_mul_upper_bound(r1.num as int, u64::MAX as int, r2.den as int, u64::MAX as int);
        lemma_mul_upper_bound(r1.den as int, u64::MAX as int, r2.den as int, u64::MAX as int);
    }
    let a: u128 = (r2.num as u128) * (r1.den as u128);
    let b: u128 = (r1.num as u128) * (r2.den as u128);
    let diff: u128 = if a >= b {
        a - b
    } else {
        b - a
    };
    let cross: u128 = (r1.den as u128) * (r2.den as u128);
    let lhs = mul_wide(diff, SCALE);
    let rhs = mul_wide(cross, delta);
    proof {
        lemma_mul_is_commutative(cross as int, delta as int);
    }
    wide_le(lhs, rhs)
}

/// A defined ratio differs from the undefined sentinel (the rational -1/1)
/// by at most `delta/SCALE`.
fn sentinel_close(r: Ratio, delta: u64) -> (res: bool)
    requires
        r.den > 0,
    ensures
        res == within_tolerance(r.num as int, r.den as int, -1, 1, delta as int),
        res == within_tolerance(-1, 1, r.num as int, r.den as int, delta as int),
{
    let sum: u128 = (r.num as u128) + (r.den as u128);
    let lhs = mul_wide(sum, SCALE);
    let rhs = mul_wide(r.den as u128, delta);
    proof {
        lemma_mul_is_commutative(r.den as int, delta as int);
    }
    wide_le(lhs, rhs)
}

/// The swap-acceptance check: compute the imbalance ratios of the given
/// state, derive the post-swap state (`ai` of asset `i` in, a fee of
/// `fee/SCALE` on the input leg minting claim supply, `ao` of asset `o`
/// out), recompute the ratios, and accept exactly when no asset's ratio
/// moves by more than `delta/SCALE`. The hypothetical state is local: the
/// caller commits the swap only on acceptance.
pub fn check_swap(
    balances: &Vec<u64>,
    claims: &Vec<u64>,
    prices: &Vec<u64>,
    i: usize,
    o: usize,
    ai: u64,
    ao: u64,
    fee: u64,
    delta: u64,
) -> (r: Result<bool, PoolError>)
    requires
        i < balances@.len(),
        o < balances@.len(),
        fee <= SCALE,
        balances@[i as int] + ai <= u64::MAX,
        state_fits(ints(balances@), ints(claims@), ints(prices@)),
        swap_in_range(ints(balances@), ints(claims@), i as int, o as int, ai as int, ao as int, fee as int),
        state_fits(
            balances_after(ints(balances@), i as int, o as int, ai as int, ao as int),
            claims_after(ints(claims@), i as int, ai as int, fee as int),
            ints(prices@),
        ),
    ensures
        (r == Err::<bool, PoolError>(PoolError::LengthMismatch)) <==> !(balances@.len()
            == prices@.len() && balances@.len() == claims@.len()),
        (r == Err::<bool, PoolError>(PoolError::DivisionByZero)) <==> (balances@.len()
            == prices@.len() && balances@.len() == claims@.len() && (degenerate(
            ints(balances@),
            ints(claims@),
            ints(prices@),
        ) || degenerate(
            balances_after(ints(balances@), i as int, o as int, ai as int, ao as int),
            claims_after(ints(claims@), i as int, ai as int, fee as int),
            ints(prices@),
        ))),
        r matches Ok(res) ==> res == swap_accepted(
            ints(balances@),
            ints(claims@),
            ints(prices@),
            i as int,
            o as int,
            ai as int,
            ao as int,
            fee as int,
            delta as int,
        ),
{
    let n = balances.len();
    if prices.len() != n || claims.len() != n {
        return Err(PoolError::LengthMismatch);
    }
    let ghost pi = ints(prices@);
    let ghost bi = ints(balances@);
    let ghost ci = ints(claims@);
    let ghost ba = balances_after(bi, i as int, o as int, ai as int, ao as int);
    let ghost ca = claims_after(ci, i as int, ai as int, fee as int);
    let r_before = match imbalance_ratios(balances, claims, prices) {
        Ok(v) => v,
        Err(e) => {
            return Err(e);
        },
    };
    proof {
        lemma_mul_upper_bound(ai as int, u64::MAX as int, fee as int, SCALE as int);
    }
    let minted_wide: u128 = (ai as u128) * (fee as u128) / (SCALE as u128);
    proof {
        assert(ca[i as int] == ci[i as int] + (ai as int * fee as int) / (SCALE as int));
        assert(0 <= ca[i as int] <= u64::MAX);
    }
    let minted: u64 = minted_wide as u64;
    let mut b_after: Vec<u64> = Vec::new();
    let mut c_after: Vec<u64> = Vec::new();
    let mut j: usize = 0;
    while j < n
        invariant
            n == balances@.len(),
            n == prices@.len(),
            n == claims@.len(),
            i < n,
            o < n,
            pi == ints(prices@),
            bi == ints(balances@),
            ci == ints(claims@),
            ba == balances_after(bi, i as int, o as int, ai as int, ao as int),
            ca == claims_after(ci, i as int, ai as int, fee as int),
            balances@[i as int] + ai <= u64::MAX,
            swap_in_range(bi, ci, i as int, o as int, ai as int, ao as int, fee as int),
            minted == (ai as int * fee as int) / (SCALE as int),
            j <= n,
            b_after@.len() == j,
            c_after@.len() == j,
            forall|k: int| 0 <= k < j ==> b_after@[k] == ba[k],
            forall|k: int| 0 <= k < j ==> c_after@[k] == ca[k],
        decreases n - j,
    {
        proof {
            assert(0 <= ba[j as int] <= u64::MAX);
            assert(0 <= ca[j as int] <= u64::MAX);
        }
        let mut bal: u64 = balances[j];
        if j == i {
            bal = bal + ai;
        }
        if j == o {
            bal = bal - ao;
        }
        b_after.push(bal);
        let mut cl: u64 = claims[j];
        if j == i {
            cl = cl + minted;
        }
        c_after.push(cl);
        j = j + 1;
    }
    proof {
        assert(ints(b_after@) =~= ba);
        assert(ints(c_after@) =~= ca);
    }
    let r_after = match imbalance_ratios(&b_after, &c_after, prices) {
        Ok(v) => v,
        Err(e) => {
            return Err(e);
        },
    };
    let mut j: usize = 0;
    while j < n
        invariant
            n == balances@.len(),
            n == prices@.len(),
            n == claims@.len(),
            pi == ints(prices@),
            bi == ints(balances@),
            ci == ints(claims@),
            ba == ints(b_after@),
            ca == ints(c_after@),
            ba == balances_after(bi, i as int, o as int, ai as int, ao as int),
            ca == claims_after(ci, i as int, ai as int, fee as int),
            j <= n,
            !degenerate(bi, ci, pi),
            !degenerate(ba, ca, pi),
            r_before@.len() == n,
            r_after@.len() == n,
            forall|k: int|
                0 <= k < n ==> (#[trigger] r_before@[k]).spec_num() == ratio_num(bi, ci, pi, k)
                    && r_before@[k].spec_den() == ratio_den(bi, ci, pi, k),
            forall|k: int|
                0 <= k < n ==> (#[trigger] r_after@[k]).spec_num() == ratio_num(ba, ca, pi, k)
                    && r_after@[k].spec_den() == ratio_den(ba, ca, pi, k),
            forall|k: int|
                0 <= k < n ==> match #[trigger] r_before@[k] {
                    ImbalanceRatio::Defined(rt) => rt.den > 0,
                    ImbalanceRatio::Undefined => true,
                },
            forall|k: int|
                0 <= k < n ==> match #[trigger] r_after@[k] {
                    ImbalanceRatio::Defined(rt) => rt.den > 0,
                    ImbalanceRatio::Undefined => true,
                },
            forall|k: int|
                0 <= k < j ==> within_tolerance(
                    #[trigger] ratio_num(bi, ci, pi, k),
                    ratio_den(bi, ci, pi, k),
                    ratio_num(ba, ca, pi, k),
                    ratio_den(ba, ca, pi, k),
                    delta as int,
                ),
        decreases n - j,
    {
        let rb = r_before[j];
        let ra = r_after[j];
        let close = match (rb, ra) {
            (ImbalanceRatio::Defined(x), ImbalanceRatio::Defined(y)) => ratio_close(x, y, delta),
            (ImbalanceRatio::Defined(x), ImbalanceRatio::Undefined) => sentinel_close(x, delta),
            (ImbalanceRatio::Undefined, ImbalanceRatio::Defined(y)) => sentinel_close(y, delta),
            (ImbalanceRatio::Undefined, ImbalanceRatio::Undefined) => true,
        };
        if !close {
            proof {
                assert(!within_tolerance(
                    ratio_num(bi, ci, pi, j as int),
                    ratio_den(bi, ci, pi, j as int),
                    ratio_num(ba, ca, pi, j as int),
                    ratio_den(ba, ca, pi, j as int),
                    delta as int,
                ));
            }
            return Ok(false);
        }
        j = j + 1;
    }
    Ok(true)
}

} // verus!
