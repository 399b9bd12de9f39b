use lattic3::cluster::{Cluster, ClusterLayer, YEAR_IN_SECONDS};
use lattic3::dec::{Dec, MAX_RAW, SCALE};
use lattic3::error::LendError;

fn whole(n: u64) -> Dec {
    Dec::from_whole(n).unwrap()
}

/// Basic flow: a cluster created at the start of 2024 takes owner
/// liquidity and a supply, and six months later a passive tick accrues
/// interest on the supply base.
#[test]
fn basic_test() {
    const UNIX_2024: i64 = 1704067200;
    const SIX_MONTHS: i64 = 15811200;

    let mut cluster = Cluster::instantiate(7, UNIX_2024);
    assert_eq!(cluster.liquidity, Dec::zero());

    // The owner seeds liquidity out of a 10000-unit balance.
    let balance = whole(10000);
    assert!(balance.raw >= whole(1000).raw);
    cluster.provide_liquidity(whole(1000)).unwrap();
    assert_eq!(cluster.liquidity, whole(1000));

    let units = cluster.supply(whole(100), UNIX_2024).unwrap();
    assert_eq!(units, whole(100));
    assert_eq!(cluster.liquidity, whole(1100));
    assert_eq!(cluster.supply, whole(100));
    assert_eq!(cluster.virtual_supply, whole(100));

    // Six months is exactly half of the interest model's year, so the
    // 5% supply rate adds exactly 2.5 to a base of 100.
    assert_eq!(SIX_MONTHS * 2, YEAR_IN_SECONDS);
    cluster.tick_interest(false, UNIX_2024 + SIX_MONTHS).unwrap();
    assert_eq!(cluster.virtual_supply.raw, 102 * SCALE + SCALE / 2);
    assert_eq!(cluster.apr_ticked, UNIX_2024 + SIX_MONTHS);
}

/// A fresh pool issues units one-for-one and its ratio stays exactly one
/// right after the deposit.
#[test]
fn supply_on_fresh_pool_keeps_ratio_one() {
    let mut cluster = Cluster::instantiate(1, 0);
    assert_eq!(cluster.virtual_supply, Dec::zero());

    let units = cluster.supply(whole(100), 0).unwrap();
    assert_eq!(units, whole(100));
    assert_eq!(cluster.supply_units, whole(100));
    assert_eq!(cluster.virtual_supply, whole(100));
    let ratio = cluster.get_ratio(ClusterLayer::Supply).unwrap();
    assert_eq!(ratio, Dec::one());
}

/// Withdrawing half the units of a par pool pays exactly that amount.
#[test]
fn withdraw_half_after_supply() {
    let mut cluster = Cluster::instantiate(1, 0);
    cluster.supply(whole(100), 0).unwrap();

    let amount = cluster.withdraw(whole(50), 0).unwrap();
    assert_eq!(amount, whole(50));
    assert_eq!(cluster.liquidity, whole(50));
    assert_eq!(cluster.supply_units, whole(50));
    assert_eq!(cluster.supply, whole(50));
}

/// An over-repayment clears the raw debt, zeroes the virtual debt, and
/// hands the excess to the suppliers as yield.
#[test]
fn repay_excess_becomes_supplier_yield() {
    let mut cluster = Cluster::instantiate(1, 0);
    cluster.debt = whole(100);
    cluster.virtual_debt = whole(100);
    cluster.debt_units = Dec::zero();

    let units_repaid = cluster.repay(whole(120), 0).unwrap();
    assert_eq!(units_repaid, Dec::zero());
    assert_eq!(cluster.debt, Dec::zero());
    assert_eq!(cluster.virtual_debt, Dec::zero());
    assert_eq!(cluster.supply, whole(20));
    assert_eq!(cluster.liquidity, whole(120));
}

/// Conservation: with no elapsed time, supplying and then redeeming the
/// issued units restores the pool exactly; no round trip mints value.
#[test]
fn round_trip_conserves_liquidity() {
    let mut cluster = Cluster::instantiate(1, 0);
    cluster.provide_liquidity(whole(1000)).unwrap();
    let before = cluster;

    for _ in 0..5 {
        let units = cluster.supply(whole(7), 0).unwrap();
        let amount = cluster.withdraw(units, 0).unwrap();
        assert_eq!(amount, whole(7));
    }
    assert_eq!(cluster, before);
}

/// The ratio of an untouched layer defaults to exactly one.
#[test]
fn ratio_defaults_to_one() {
    let cluster = Cluster::instantiate(1, 0);
    assert_eq!(cluster.get_ratio(ClusterLayer::Supply).unwrap(), Dec::one());
    assert_eq!(cluster.get_ratio(ClusterLayer::Debt).unwrap(), Dec::one());

    let mut seeded = Cluster::instantiate(2, 0);
    seeded.supply(whole(3), 0).unwrap();
    // The supply side now has a real ratio, the debt side still defaults.
    assert_eq!(seeded.get_ratio(ClusterLayer::Debt).unwrap(), Dec::one());
}

/// A forced tick after exactly one year grows both virtual balances by
/// their full yearly rates: 10% on debt, 5% on supply.
#[test]
fn tick_interest_full_year() {
    let mut cluster = Cluster::instantiate(1, 0);
    cluster.virtual_supply = whole(1000);
    cluster.virtual_debt = whole(1000);

    cluster.tick_interest(true, YEAR_IN_SECONDS).unwrap();
    assert_eq!(cluster.virtual_supply, whole(1050));
    assert_eq!(cluster.virtual_debt, whole(1100));
}

/// A forced tick with no elapsed time changes neither virtual balance,
/// and ticks never shrink them.
#[test]
fn tick_interest_zero_elapsed_is_noop() {
    let mut cluster = Cluster::instantiate(1, 77);
    cluster.virtual_supply = whole(123);
    cluster.virtual_debt = whole(456);
    let before = cluster;

    cluster.tick_interest(true, 77).unwrap();
    assert_eq!(cluster, before);

    // A tiny base with one elapsed second rounds to no increment at all,
    // but never downward.
    let mut tiny = Cluster::instantiate(2, 0);
    tiny.virtual_debt = Dec { raw: 1 };
    tiny.tick_interest(true, 1).unwrap();
    assert_eq!(tiny.virtual_debt.raw, 1);
}

/// A passive tick respects the accrual interval; a forced one does not.
#[test]
fn tick_interval_gates_passive_accrual() {
    let mut cluster = Cluster::instantiate(1, 0);
    cluster.set_interest_tick_interval(3600).unwrap();
    cluster.virtual_supply = whole(1000);

    // One second elapsed: below the interval, nothing moves.
    cluster.tick_interest(false, 1).unwrap();
    assert_eq!(cluster.apr_ticked, 0);
    assert_eq!(cluster.virtual_supply, whole(1000));

    // Forced: the timestamp moves even though the increment rounds small.
    cluster.tick_interest(true, 1).unwrap();
    assert_eq!(cluster.apr_ticked, 1);

    assert_eq!(
        cluster.set_interest_tick_interval(0),
        Err(LendError::InvalidInput)
    );
}

/// Unit and amount conversions at a one-and-a-half ratio.
#[test]
fn unit_conversions_at_ratio() {
    let mut cluster = Cluster::instantiate(1, 0);
    cluster.supply_units = whole(150);
    cluster.virtual_supply = whole(100);

    let units = cluster.get_units(ClusterLayer::Supply, whole(10)).unwrap();
    assert_eq!(units, whole(15));
    let amount = cluster.get_amount(ClusterLayer::Supply, whole(15)).unwrap();
    assert_eq!(amount, whole(10));
}

/// Round-half-to-even at the minimum representable increment: halves go
/// to the even neighbour in both directions.
#[test]
fn rounding_is_half_to_even() {
    let half = Dec { raw: SCALE / 2 };
    // 5 steps * 0.5 = 2.5 steps -> 2 (even); 3 * 0.5 = 1.5 -> 2 (even);
    // 1 * 0.5 = 0.5 -> 0 (even).
    assert_eq!(Dec { raw: 5 }.checked_mul(half).unwrap().raw, 2);
    assert_eq!(Dec { raw: 3 }.checked_mul(half).unwrap().raw, 2);
    assert_eq!(Dec { raw: 1 }.checked_mul(half).unwrap().raw, 0);
}

/// After a year of accrual the supply ratio drops below one, so each
/// unit redeems for more than was deposited; the exact payout follows
/// from the round-half-to-even rule.
#[test]
fn interest_bearing_redemption() {
    let mut cluster = Cluster::instantiate(1, 0);
    cluster.provide_liquidity(whole(50)).unwrap();
    cluster.supply(whole(100), 0).unwrap();

    cluster.tick_interest(true, YEAR_IN_SECONDS).unwrap();
    assert_eq!(cluster.virtual_supply, whole(105));

    // ratio = 100 / 105 rounds to 0.95238095; 50 units then redeem for
    // 50 / 0.95238095 = 52.50000013 of the asset.
    let ratio = cluster.get_ratio(ClusterLayer::Supply).unwrap();
    assert_eq!(ratio.raw, 95_238_095);
    let amount = cluster.withdraw(whole(50), YEAR_IN_SECONDS).unwrap();
    assert_eq!(amount.raw, 5_250_000_013);
}

/// Every failure leaves the cluster untouched, with the matching error.
#[test]
fn cluster_error_paths() {
    let mut cluster = Cluster::instantiate(1, 0);
    cluster.provide_liquidity(whole(10)).unwrap();
    let before = cluster;

    assert_eq!(cluster.supply(Dec::zero(), 0), Err(LendError::InvalidInput));
    assert_eq!(cluster.withdraw(Dec::zero(), 0), Err(LendError::InvalidInput));
    assert_eq!(
        cluster.borrow(whole(11), 0),
        Err(LendError::InsufficientFunds)
    );
    assert_eq!(
        cluster.withdraw_liquidity(whole(11)),
        Err(LendError::InsufficientFunds)
    );
    assert_eq!(cluster, before);

    // Overflow past the representable range is an arithmetic failure.
    let mut full = Cluster::instantiate(2, 0);
    full.liquidity = Dec { raw: MAX_RAW };
    let snapshot = full;
    assert_eq!(
        full.provide_liquidity(Dec { raw: 1 }),
        Err(LendError::ArithmeticFailure)
    );
    assert_eq!(full, snapshot);
}

/// Borrow records debt units at the ratio before the mutation, and repay
/// clears them symmetrically.
#[test]
fn borrow_then_repay_clears_debt() {
    let mut cluster = Cluster::instantiate(1, 0);
    cluster.provide_liquidity(whole(500)).unwrap();

    let (amount, units) = cluster.borrow(whole(200), 0).unwrap();
    assert_eq!(amount, whole(200));
    assert_eq!(units, whole(200));
    assert_eq!(cluster.liquidity, whole(300));
    assert_eq!(cluster.debt, whole(200));
    assert_eq!(cluster.virtual_debt, whole(200));

    let repaid_units = cluster.repay(whole(200), 0).unwrap();
    assert_eq!(repaid_units, whole(200));
    assert_eq!(cluster.debt, Dec::zero());
    assert_eq!(cluster.debt_units, Dec::zero());
    assert_eq!(cluster.virtual_debt, Dec::zero());
    assert_eq!(cluster.liquidity, whole(500));
}

/// The state snapshot mirrors every field and both ratios.
#[test]
fn cluster_state_snapshot() {
    let mut cluster = Cluster::instantiate(9, 5);
    cluster.supply(whole(40), 5).unwrap();
    let state = cluster.get_cluster_state(6).unwrap();
    assert_eq!(state.at, 6);
    assert_eq!(state.resource, 9);
    assert_eq!(state.liquidity, whole(40));
    assert_eq!(state.supply_units, whole(40));
    assert_eq!(state.supply_ratio, Dec::one());
    assert_eq!(state.debt_ratio, Dec::one());
    assert_eq!(state.apr_ticked, 5);
}
