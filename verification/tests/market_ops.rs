use lattic3::dec::{Dec, SCALE};
use lattic3::error::LendError;
use lattic3::market::Lattic3;
use lattic3::position::UnitDelta;
use lattic3::value_map::ValueMap;

fn whole(n: u64) -> Dec {
    Dec::from_whole(n).unwrap()
}

fn price_map(prices: &[(u64, Dec)]) -> ValueMap {
    let mut m = ValueMap::new();
    for &(asset, p) in prices {
        m.insert(asset, p);
    }
    m
}

/// A fresh market instantiates empty: no assets, no positions.
#[test]
fn instantisation_test() {
    let market = Lattic3::instantiate();
    assert_eq!(market.assets.len(), 0);
    assert_eq!(market.positions.len(), 0);
    assert_eq!(market.position_id, 0);
}

/// A fungible asset can be added when everything is valid, and is then
/// listed with a fresh cluster.
#[test]
fn asset_add_test() {
    let mut market = Lattic3::instantiate();
    let dummy_asset: u64 = 42;

    market.add_asset(dummy_asset, 0).unwrap();

    let found = market.assets.iter().any(|e| e.address == dummy_asset);
    assert!(found, "Added resource not found");
    let entry = market.assets[0];
    assert!(entry.listed);
    assert_eq!(entry.cluster.resource, dummy_asset);

    // Adding the same asset twice is a state violation.
    assert_eq!(market.add_asset(dummy_asset, 0), Err(LendError::StateViolation));
}

/// An added asset can be untracked when everything is valid.
#[test]
fn asset_remove_test() {
    let mut market = Lattic3::instantiate();
    let dummy_asset: u64 = 42;

    market.add_asset(dummy_asset, 0).unwrap();
    market.untrack_asset(dummy_asset).unwrap();
    assert!(!market.assets[0].listed);

    // It can be tracked again afterwards.
    market.track_asset(dummy_asset).unwrap();
    assert!(market.assets[0].listed);
}

/// Untracking an asset that was never added fails.
#[test]
fn asset_remove_invalid_test() {
    let mut market = Lattic3::instantiate();
    let dummy_asset: u64 = 42;

    assert_eq!(
        market.untrack_asset(dummy_asset),
        Err(LendError::StateViolation)
    );
    assert_eq!(market.assets.len(), 0);
}

/// An untracked asset blocks new allocations but keeps existing ones.
#[test]
fn untracked_asset_blocks_new_supply() {
    let mut market = Lattic3::instantiate();
    market.add_asset(1, 0).unwrap();
    let (id, _) = market.open_position(&vec![(1, whole(50))], 0).unwrap();

    market.untrack_asset(1).unwrap();
    assert_eq!(
        market.position_supply(id, &vec![(1, whole(10))], 0),
        Err(LendError::StateViolation)
    );
    // The existing holding is untouched and can still be withdrawn.
    let prices = price_map(&[(1, Dec::one())]);
    let (leftover, amount) = market
        .position_withdraw(id, 1, whole(10), None, &prices, 0)
        .unwrap();
    assert_eq!(leftover, Dec::zero());
    assert_eq!(amount, whole(10));
}

/// Opening a position supplies each asset and files the issued units
/// under a fresh credential number.
#[test]
fn open_position_issues_units() {
    let mut market = Lattic3::instantiate();
    market.add_asset(1, 0).unwrap();
    market.add_asset(2, 0).unwrap();

    let (id, units) = market
        .open_position(&vec![(1, whole(200)), (2, whole(25))], 0)
        .unwrap();
    assert_eq!(id, 1);
    assert_eq!(units, vec![(1, whole(200)), (2, whole(25))]);
    assert_eq!(market.positions.len(), 1);
    assert_eq!(market.positions[0].1.supply.get(1), Some(whole(200)));
    assert_eq!(market.positions[0].1.supply.get(2), Some(whole(25)));

    // An empty batch and an unknown asset are rejected.
    assert_eq!(market.open_position(&vec![], 0), Err(LendError::InvalidInput));
    assert_eq!(
        market.open_position(&vec![(9, whole(1))], 0),
        Err(LendError::StateViolation)
    );
}

/// Scenario from the health gate: a position with supply worth 200 and
/// debt worth 100 at unit prices has health 2.0, and a borrow that would
/// push the debt value to 201 fails with a health violation and changes
/// nothing at all.
#[test]
fn health_gate_scenario() {
    let mut market = Lattic3::instantiate();
    market.add_asset(1, 0).unwrap();
    market.add_asset(2, 0).unwrap();
    let prices = price_map(&[(1, Dec::one()), (2, Dec::one())]);

    // A second participant funds the borrowable liquidity of asset 2.
    market.open_position(&vec![(2, whole(1000))], 0).unwrap();

    let (id, _) = market.open_position(&vec![(1, whole(200))], 0).unwrap();
    market.position_borrow(id, &vec![(2, whole(100))], &prices, 0).unwrap();

    // Health is exactly supply value / debt value = 200 / 100 = 2.0.
    let health = market.get_position_health(id, &prices, 0).unwrap();
    assert_eq!(health.raw, 2 * SCALE);

    // Raising the debt value to 201 would drop health to 200/201 < 1.
    let assets_before: Vec<_> = market.assets.clone();
    let supply_before = market.positions[1].1.supply.entries.clone();
    let debt_before = market.positions[1].1.debt.entries.clone();
    assert_eq!(
        market.position_borrow(id, &vec![(2, whole(101))], &prices, 0),
        Err(LendError::HealthViolation)
    );
    assert_eq!(market.assets, assets_before);
    assert_eq!(market.positions[1].1.supply.entries, supply_before);
    assert_eq!(market.positions[1].1.debt.entries, debt_before);

    // The values themselves are unchanged: health is still 2.0.
    let health_after = market.get_position_health(id, &prices, 0).unwrap();
    assert_eq!(health_after.raw, 2 * SCALE);
}

/// A withdraw that would break the health gate rolls back completely.
#[test]
fn withdraw_below_health_gate_rolls_back() {
    let mut market = Lattic3::instantiate();
    market.add_asset(1, 0).unwrap();
    market.add_asset(2, 0).unwrap();
    let prices = price_map(&[(1, Dec::one()), (2, Dec::one())]);

    market.open_position(&vec![(2, whole(1000))], 0).unwrap();
    let (id, _) = market.open_position(&vec![(1, whole(200))], 0).unwrap();
    market.position_borrow(id, &vec![(2, whole(100))], &prices, 0).unwrap();

    let assets_before: Vec<_> = market.assets.clone();
    let supply_before = market.positions[1].1.supply.entries.clone();
    assert_eq!(
        market.position_withdraw(id, 1, whole(150), None, &prices, 0),
        Err(LendError::HealthViolation)
    );
    assert_eq!(market.assets, assets_before);
    assert_eq!(market.positions[1].1.supply.entries, supply_before);

    // Withdrawing down to exactly the debt value keeps health at 1.0.
    let (leftover, amount) = market
        .position_withdraw(id, 1, whole(100), None, &prices, 0)
        .unwrap();
    assert_eq!(leftover, Dec::zero());
    assert_eq!(amount, whole(100));
}

/// The requested cap limits a withdraw and returns the unredeemed units.
#[test]
fn withdraw_requested_cap_returns_change() {
    let mut market = Lattic3::instantiate();
    market.add_asset(1, 0).unwrap();
    let prices = price_map(&[(1, Dec::one())]);

    let (id, _) = market.open_position(&vec![(1, whole(100))], 0).unwrap();
    let (leftover, amount) = market
        .position_withdraw(id, 1, whole(80), Some(whole(30)), &prices, 0)
        .unwrap();
    assert_eq!(amount, whole(30));
    assert_eq!(leftover, whole(50));
    assert_eq!(market.positions[0].1.supply.get(1), Some(whole(70)));
}

/// Repay is capped by the debt owed; the remainder comes back and a debt
/// repaid in full drops its entry.
#[test]
fn repay_caps_at_debt_owed() {
    let mut market = Lattic3::instantiate();
    market.add_asset(1, 0).unwrap();
    market.add_asset(2, 0).unwrap();
    let prices = price_map(&[(1, Dec::one()), (2, Dec::one())]);

    market.open_position(&vec![(2, whole(1000))], 0).unwrap();
    let (id, _) = market.open_position(&vec![(1, whole(200))], 0).unwrap();
    market.position_borrow(id, &vec![(2, whole(100))], &prices, 0).unwrap();

    // Offering 120 against a debt of 100 consumes only 100.
    let (leftover, units_repaid) = market
        .position_repay(id, 2, whole(120), None, 0)
        .unwrap();
    assert_eq!(leftover, whole(20));
    assert_eq!(units_repaid, whole(100));
    assert_eq!(market.positions[1].1.debt.get(2), None);

    // Repaying an asset that is not owed is a state violation.
    assert_eq!(
        market.position_repay(id, 2, whole(1), None, 0),
        Err(LendError::StateViolation)
    );
}

/// A position drained to empty closes itself; an explicit close needs
/// both maps empty.
#[test]
fn close_position_lifecycle() {
    let mut market = Lattic3::instantiate();
    market.add_asset(1, 0).unwrap();
    let prices = price_map(&[(1, Dec::one())]);

    let (id, _) = market.open_position(&vec![(1, whole(10))], 0).unwrap();
    assert_eq!(
        market.close_position(id),
        Err(LendError::StateViolation)
    );

    // Withdrawing the whole holding closes the position automatically.
    market.position_withdraw(id, 1, whole(10), None, &prices, 0).unwrap();
    assert_eq!(market.positions.len(), 0);
    assert_eq!(market.close_position(id), Err(LendError::StateViolation));

    // A later position gets a fresh credential number.
    let (id2, _) = market.open_position(&vec![(1, whole(5))], 0).unwrap();
    assert_eq!(id2, 2);
    market.position_withdraw(id2, 1, whole(5), None, &prices, 0).unwrap();
    assert_eq!(market.positions.len(), 0);
}

/// A debt-free position has the sentinel maximal health, and a missing
/// oracle price fails the health computation.
#[test]
fn health_sentinel_and_missing_price() {
    let mut market = Lattic3::instantiate();
    market.add_asset(1, 0).unwrap();
    market.add_asset(2, 0).unwrap();

    market.open_position(&vec![(2, whole(1000))], 0).unwrap();
    let (id, _) = market.open_position(&vec![(1, whole(200))], 0).unwrap();

    let no_prices = ValueMap::new();
    let health = market.get_position_health(id, &no_prices, 0).unwrap();
    assert_eq!(health, Dec::max_value());

    let full_prices = price_map(&[(1, Dec::one()), (2, Dec::one())]);
    market.position_borrow(id, &vec![(2, whole(100))], &full_prices, 0).unwrap();
    // The debt side is priced, the supply side is not: health fails.
    let partial_prices = price_map(&[(2, Dec::one())]);
    assert_eq!(
        market.get_position_health(id, &partial_prices, 0),
        Err(LendError::StateViolation)
    );
}

/// Position deltas validate their inputs: a shrink larger than the
/// holding is rejected as insufficient funds.
#[test]
fn position_delta_validation() {
    let mut position = lattic3::position::Position::new();
    position
        .update_supply(&vec![(1, UnitDelta::Increase(whole(5)))])
        .unwrap();
    assert_eq!(
        position.update_supply(&vec![(1, UnitDelta::Decrease(whole(6)))]),
        Err(LendError::InsufficientFunds)
    );
    assert_eq!(
        position.update_supply(&vec![(2, UnitDelta::Decrease(whole(1)))]),
        Err(LendError::StateViolation)
    );
    assert_eq!(
        position.update_supply(&vec![(1, UnitDelta::Increase(Dec::zero()))]),
        Err(LendError::InvalidInput)
    );
    // A shrink to exactly zero drops the entry.
    position
        .update_supply(&vec![(1, UnitDelta::Decrease(whole(5)))])
        .unwrap();
    assert_eq!(position.supply.len(), 0);
}

/// A batch naming the same asset twice supplies it twice and the
/// position accumulates both entries.
#[test]
fn open_position_accumulates_duplicate_assets() {
    let mut market = Lattic3::instantiate();
    market.add_asset(1, 0).unwrap();

    let (id, units) = market
        .open_position(&vec![(1, whole(10)), (1, whole(5))], 0)
        .unwrap();
    assert_eq!(units, vec![(1, whole(10)), (1, whole(5))]);
    assert_eq!(market.positions[0].1.supply.get(1), Some(whole(15)));
    assert_eq!(market.assets[0].cluster.liquidity, whole(15));
    let _ = id;
}

/// The error descriptions are stable.
#[test]
fn error_messages() {
    assert_eq!(LendError::InvalidInput.message(), "invalid input");
    assert_eq!(LendError::HealthViolation.message(), "health below one");
}
