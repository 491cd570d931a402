use pool_math::model::SCALE;
use pool_math::pool::check_swap;
use pool_math::pool::aggregate_values;
use pool_math::pool::imbalance_ratios;
use pool_math::pool::weights;
use pool_math::pool::ImbalanceRatio;
use pool_math::pool::PoolError;
use pool_math::pool::Ratio;

#[test]
fn weights_length_mismatch() {
    let r = weights(&vec![1, 2], &vec![1]);
    assert_eq!(r, Err(PoolError::LengthMismatch));
}

#[test]
fn aggregate_length_mismatch() {
    let r = aggregate_values(&vec![1, 2], &vec![1, 2], &vec![1]);
    assert_eq!(r, Err(PoolError::LengthMismatch));
    let r = aggregate_values(&vec![1, 2], &vec![1], &vec![1, 2]);
    assert_eq!(r, Err(PoolError::LengthMismatch));
}

#[test]
fn imbalance_length_mismatch() {
    let r = imbalance_ratios(&vec![1, 2], &vec![1], &vec![1, 2]);
    assert_eq!(r, Err(PoolError::LengthMismatch));
}

#[test]
fn check_swap_length_mismatch() {
    let r = check_swap(&vec![100, 100, 100], &vec![100, 100], &vec![1, 1, 1], 0, 1, 0, 0, 0, 0);
    assert_eq!(r, Err(PoolError::LengthMismatch));
}

#[test]
fn weights_sum_to_denominator() {
    let w = weights(&vec![100, 100, 100], &vec![1, 1, 1]).unwrap();
    assert_eq!(w.len(), 3);
    let mut total: u64 = 0;
    for r in &w {
        assert_eq!(r.den, 300);
        total += r.num;
    }
    assert_eq!(total, 300);

    let w = weights(&vec![1, 3], &vec![2, 1]).unwrap();
    assert_eq!(w, vec![Ratio { num: 2, den: 5 }, Ratio { num: 3, den: 5 }]);
    assert_eq!(w[0].num + w[1].num, w[0].den);
}

#[test]
fn weights_zero_pool_value() {
    let r = weights(&vec![0, 0], &vec![1, 1]);
    assert_eq!(r, Err(PoolError::DivisionByZero));
}

#[test]
fn weights_empty_pool() {
    let r = weights(&vec![], &vec![]);
    assert_eq!(r, Ok(vec![]));
}

#[test]
fn aggregate_worked_scenario() {
    let r = aggregate_values(&vec![100, 100, 100], &vec![100, 100, 100], &vec![1, 1, 1]);
    assert_eq!(r, Ok((300, 300)));
}

#[test]
fn equilibrium_ratios_are_one() {
    // claims proportional to balances: every defined ratio is exactly one
    let v = imbalance_ratios(&vec![10, 20, 30], &vec![1, 2, 3], &vec![5, 7, 11]).unwrap();
    assert_eq!(
        v,
        vec![
            ImbalanceRatio::Defined(Ratio { num: 520, den: 520 }),
            ImbalanceRatio::Defined(Ratio { num: 1040, den: 1040 }),
            ImbalanceRatio::Defined(Ratio { num: 1560, den: 1560 }),
        ]
    );
}

#[test]
fn zero_claims_are_undefined() {
    let v = imbalance_ratios(&vec![10, 10, 10], &vec![100, 0, 50], &vec![1, 1, 1]).unwrap();
    assert!(matches!(v[0], ImbalanceRatio::Defined(_)));
    assert_eq!(v[1], ImbalanceRatio::Undefined);
    assert!(matches!(v[2], ImbalanceRatio::Defined(_)));
}

#[test]
fn imbalance_zero_pool_with_claims() {
    let r = imbalance_ratios(&vec![0, 0], &vec![1, 0], &vec![1, 1]);
    assert_eq!(r, Err(PoolError::DivisionByZero));
}

#[test]
fn imbalance_zero_pool_without_claims() {
    let r = imbalance_ratios(&vec![0, 0], &vec![0, 0], &vec![1, 1]);
    assert_eq!(r, Ok(vec![ImbalanceRatio::Undefined, ImbalanceRatio::Undefined]));
}

#[test]
fn noop_swap_accepted_at_zero_tolerance() {
    let r = check_swap(
        &vec![100, 100, 100],
        &vec![100, 100, 100],
        &vec![1, 1, 1],
        0,
        1,
        0,
        0,
        SCALE / 10,
        0,
    );
    assert_eq!(r, Ok(true));
}

#[test]
fn worked_scenario_accepted() {
    // balances [100,100,100], claims [100,100,100], prices [1,1,1]:
    // swap 10 of asset 0 in, 10 of asset 1 out, 10% fee, 10% tolerance
    let balances: Vec<u64> = vec![100, 100, 100];
    let claims: Vec<u64> = vec![100, 100, 100];
    let prices: Vec<u64> = vec![1, 1, 1];

    let before = imbalance_ratios(&balances, &claims, &prices).unwrap();
    for entry in &before {
        match entry {
            ImbalanceRatio::Defined(r) => {
                assert_eq!(r.num, 30000);
                assert_eq!(r.den, 30000);
            }
            ImbalanceRatio::Undefined => panic!("every asset has claims outstanding"),
        }
    }

    let r = check_swap(&balances, &claims, &prices, 0, 1, 10, 10, SCALE / 10, SCALE / 10);
    assert_eq!(r, Ok(true));
}

#[test]
fn post_swap_ratios_exact() {
    // the post-swap state of the worked scenario: the 10% fee on 10 units
    // mints exactly one claim unit on the input asset
    let v = imbalance_ratios(&vec![110, 90, 100], &vec![101, 100, 100], &vec![1, 1, 1]).unwrap();
    assert_eq!(
        v,
        vec![
            ImbalanceRatio::Defined(Ratio { num: 33110, den: 30300 }),
            ImbalanceRatio::Defined(Ratio { num: 27090, den: 30000 }),
            ImbalanceRatio::Defined(Ratio { num: 30100, den: 30000 }),
        ]
    );
}

#[test]
fn tolerance_threshold_is_sharp() {
    // for the worked scenario the largest ratio movement is on asset 1:
    // |27090/30000 - 1| = 0.097 exactly, so 97_000_000 billionths is the
    // smallest accepted tolerance
    let balances: Vec<u64> = vec![100, 100, 100];
    let claims: Vec<u64> = vec![100, 100, 100];
    let prices: Vec<u64> = vec![1, 1, 1];
    let r = check_swap(&balances, &claims, &prices, 0, 1, 10, 10, SCALE / 10, 97_000_000);
    assert_eq!(r, Ok(true));
    let r = check_swap(&balances, &claims, &prices, 0, 1, 10, 10, SCALE / 10, 96_999_999);
    assert_eq!(r, Ok(false));
}

#[test]
fn swap_onto_undefined_ratio() {
    // asset 0 has no claims before the swap (ratio undefined, the -1
    // sentinel) and claims minted by the fee afterwards: the movement is
    // measured against the sentinel, |12100/2100 + 1| = 14200/2100
    let balances: Vec<u64> = vec![100, 100];
    let claims: Vec<u64> = vec![0, 100];
    let prices: Vec<u64> = vec![1, 1];
    let r = check_swap(&balances, &claims, &prices, 0, 1, 10, 0, SCALE, 6_761_904_762);
    assert_eq!(r, Ok(true));
    let r = check_swap(&balances, &claims, &prices, 0, 1, 10, 0, SCALE, 6_761_904_761);
    assert_eq!(r, Ok(false));
}

#[test]
fn swap_draining_pool_degenerates() {
    // the swap removes the whole pool value while claims stay outstanding
    let r = check_swap(&vec![0, 3], &vec![1, 1], &vec![1, 1], 0, 1, 0, 3, 0, SCALE);
    assert_eq!(r, Err(PoolError::DivisionByZero));
}
