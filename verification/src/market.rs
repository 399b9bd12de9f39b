use crate::cluster::{
    lemma_par_supply, lemma_par_withdraw, spec_amount_for, spec_borrow, spec_repay, spec_supply,
    spec_ticked, spec_units_for, spec_withdraw, Cluster, ClusterLayer,
};
use crate::dec::{rhe, Dec, MAX_RAW, SCALE};
use crate::error::LendError;
use crate::position::{
    spec_apply_delta_entries, spec_apply_deltas_entries, unit_delta_valid, Position, PositionView,
    UnitDelta,
};
use crate::value_map::{has_key, key_index, lemma_map_of_index, ValueMap};
use vstd::prelude::*;

verus! {

/// One listed asset: its identifier, whether it is currently listed
/// (eligible for new allocations), and its cluster.
#[derive(Clone, Copy, Debug, PartialEq, Eq, Structural)]
pub struct AssetEntry {
    pub address: u64,
    pub listed: bool,
    pub cluster: Cluster,
}

/// Asset entries are well-formed: addresses are unique and each cluster
/// is well-formed and manages its entry's asset.
pub open spec fn assets_wf(s: Seq<AssetEntry>) -> bool {
    &&& forall|i: int, j: int| 0 <= i < j < s.len() ==> s[i].address != s[j].address
    &&& forall|i: int|
        0 <= i < s.len() ==> (#[trigger] s[i]).cluster.wf() && s[i].cluster.resource
            == s[i].address
}

/// Some entry lists this asset.
pub open spec fn has_asset(s: Seq<AssetEntry>, address: u64) -> bool {
    exists|i: int| 0 <= i < s.len() && s[i].address == address
}

/// The position of the entry listing `address`; with unique addresses it
/// is the one such position.
pub open spec fn asset_index(s: Seq<AssetEntry>, address: u64) -> int {
    choose|i: int| 0 <= i < s.len() && s[i].address == address
}

/// Position identifiers are unique across the registry.
pub open spec fn pos_ids_unique(s: Seq<(u64, Position)>) -> bool {
    forall|i: int, j: int| 0 <= i < j < s.len() ==> s[i].0 != s[j].0
}

/// Some registry entry carries this position identifier.
pub open spec fn has_position(s: Seq<(u64, Position)>, id: u64) -> bool {
    exists|i: int| 0 <= i < s.len() && s[i].0 == id
}

/// The registry slot of position `id`; with unique identifiers it is the
/// one such slot.
pub open spec fn position_index(s: Seq<(u64, Position)>, id: u64) -> int {
    choose|i: int| 0 <= i < s.len() && s[i].0 == id
}

/// The mathematical registry: position identifier to position content.
pub open spec fn positions_map_of(s: Seq<(u64, Position)>) -> Map<u64, PositionView>
    decreases s.len(),
{
    if s.len() == 0 {
        Map::empty()
    } else {
        positions_map_of(s.drop_last()).insert(s.last().0, s.last().1@)
    }
}

/// An identifier is in the registry map exactly when some slot carries it.
pub proof fn lemma_positions_contains(s: Seq<(u64, Position)>, id: u64)
    ensures
        positions_map_of(s).contains_key(id) <==> has_position(s, id),
    decreases s.len(),
{
    if s.len() > 0 {
        let t = s.drop_last();
        lemma_positions_contains(t, id);
        if s.last().0 == id {
            assert(s[s.len() - 1].0 == id);
        } else {
            if positions_map_of(s).contains_key(id) {
                let i = choose|i: int| 0 <= i < t.len() && t[i].0 == id;
                assert(s[i].0 == id);
            }
            if has_position(s, id) {
                let i = choose|i: int| 0 <= i < s.len() && s[i].0 == id;
                assert(t[i].0 == id);
            }
        }
    }
}

/// With unique identifiers, each slot is in force in the registry map.
pub proof fn lemma_positions_index(s: Seq<(u64, Position)>, i: int)
    requires
        pos_ids_unique(s),
        0 <= i < s.len(),
    ensures
        positions_map_of(s).contains_key(s[i].0),
        positions_map_of(s)[s[i].0] == s[i].1@,
    decreases s.len(),
{
    if i < s.len() - 1 {
        let t = s.drop_last();
        assert(t[i] == s[i]);
        lemma_positions_index(t, i);
        assert(s.last().0 != s[i].0);
    }
}

/// Overwriting the position in slot `i` updates just that identifier.
pub proof fn lemma_positions_update(s: Seq<(u64, Position)>, i: int, p: Position)
    requires
        pos_ids_unique(s),
        0 <= i < s.len(),
    ensures
        positions_map_of(s.update(i, (s[i].0, p))) =~= positions_map_of(s).insert(s[i].0, p@),
        pos_ids_unique(s.update(i, (s[i].0, p))),
    decreases s.len(),
{
    let u = s.update(i, (s[i].0, p));
    if i == s.len() - 1 {
        assert(u.drop_last() =~= s.drop_last());
    } else {
        assert(u.drop_last() =~= s.drop_last().update(i, (s[i].0, p)));
        lemma_positions_update(s.drop_last(), i, p);
        assert(s.last().0 != s[i].0);
        assert(u.last() == s.last());
    }
}

/// Appending a fresh identifier inserts just that identifier.
pub proof fn lemma_positions_push(s: Seq<(u64, Position)>, id: u64, p: Position)
    ensures
        positions_map_of(s.push((id, p))) == positions_map_of(s).insert(id, p@),
{
    assert(s.push((id, p)).drop_last() =~= s);
}

/// Removing slot `i` removes just that identifier.
pub proof fn lemma_positions_remove(s: Seq<(u64, Position)>, i: int)
    requires
        pos_ids_unique(s),
        0 <= i < s.len(),
    ensures
        positions_map_of(s.remove(i)) =~= positions_map_of(s).remove(s[i].0),
        pos_ids_unique(s.remove(i)),
    decreases s.len(),
{
    let u = s.remove(i);
    assert(pos_ids_unique(u)) by {
        assert forall|p: int, q: int| 0 <= p < q < u.len() implies u[p].0 != u[q].0 by {
            if q < i {
                assert(u[p] == s[p] && u[q] == s[q]);
            } else if p < i {
                assert(u[p] == s[p] && u[q] == s[q + 1]);
            } else {
                assert(u[p] == s[p + 1] && u[q] == s[q + 1]);
            }
        }
    }
    if i == s.len() - 1 {
        assert(u =~= s.drop_last());
        lemma_positions_contains(u, s[i].0);
        assert(positions_map_of(u) =~= positions_map_of(s).remove(s[i].0));
    } else {
        assert(u.drop_last() =~= s.drop_last().remove(i));
        lemma_positions_remove(s.drop_last(), i);
        assert(s.last().0 != s[i].0);
        assert(u.last() == s.last());
    }
}

/// The mathematical content of the whole market.
pub ghost struct MarketView {
    pub assets: Seq<AssetEntry>,
    pub positions: Map<u64, PositionView>,
    pub position_id: u64,
}

/// The unit list turned into position deltas: every issued unit amount
/// becomes an increase of that asset's balance.
pub open spec fn increases_of(units: Seq<(u64, Dec)>) -> Seq<(u64, UnitDelta)> {
    units.map_values(|e: (u64, Dec)| (e.0, UnitDelta::Increase(e.1)))
}

/// Supplying a batch, asset by asset from the left: each amount must be
/// positive and its asset listed, the asset's cluster takes the amount,
/// and the issued units are collected. The first failure fails the batch.
pub open spec fn spec_supply_all(
    assets: Seq<AssetEntry>,
    supplies: Seq<(u64, Dec)>,
    now: i64,
) -> Result<(Seq<AssetEntry>, Seq<(u64, Dec)>), LendError>
    decreases supplies.len(),
{
    if supplies.len() == 0 {
        Ok((assets, Seq::empty()))
    } else {
        match spec_supply_all(assets, supplies.drop_last(), now) {
            Err(e) => Err(e),
            Ok(p) => {
                let (addr, amount) = supplies.last();
                if amount.raw == 0 {
                    Err(LendError::InvalidInput)
                } else if !has_asset(p.0, addr) || !p.0[asset_index(p.0, addr)].listed {
                    Err(LendError::StateViolation)
                } else {
                    let i = asset_index(p.0, addr);
                    match spec_supply(p.0[i].cluster, amount, now) {
                        Err(e) => Err(e),
                        Ok(q) => Ok(
                            (
                                p.0.update(i, AssetEntry { cluster: q.0, ..p.0[i] }),
                                p.1.push((addr, q.1)),
                            ),
                        ),
                    }
                }
            },
        }
    }
}

/// A supply batch that fails on a prefix fails the same way as a whole.
pub proof fn lemma_supply_all_err_prefix(
    assets: Seq<AssetEntry>,
    supplies: Seq<(u64, Dec)>,
    now: i64,
    i: int,
)
    requires
        0 <= i <= supplies.len(),
        spec_supply_all(assets, supplies.take(i), now) is Err,
    ensures
        spec_supply_all(assets, supplies, now) == spec_supply_all(assets, supplies.take(i), now),
    decreases supplies.len(),
{
    if i < supplies.len() {
        assert(supplies.drop_last().take(i) =~= supplies.take(i));
        lemma_supply_all_err_prefix(assets, supplies.drop_last(), now, i);
    } else {
        assert(supplies.take(i) =~= supplies);
    }
}

/// What `open_position` does: validate the batch, supply every amount,
/// fold the issued units into a fresh position, and file it under the
/// next credential number.
pub open spec fn spec_open_position(mv: MarketView, supplies: Seq<(u64, Dec)>, now: i64) -> Result<
    (MarketView, u64, Seq<(u64, Dec)>),
    LendError,
> {
    if supplies.len() == 0 {
        Err(LendError::InvalidInput)
    } else if mv.position_id == u64::MAX {
        Err(LendError::StateViolation)
    } else {
        match spec_supply_all(mv.assets, supplies, now) {
            Err(e) => Err(e),
            Ok(p) => match spec_apply_deltas_entries(Seq::empty(), increases_of(p.1)) {
                Err(e) => Err(e),
                Ok(sentries) => {
                    let id = (mv.position_id + 1) as u64;
                    Ok(
                        (
                            MarketView {
                                assets: p.0,
                                positions: mv.positions.insert(
                                    id,
                                    PositionView { supply: sentries, debt: Seq::empty() },
                                ),
                                position_id: id,
                            },
                            id,
                            p.1,
                        ),
                    )
                },
            },
        }
    }
}

/// What `position_supply` does: supply every amount and fold the issued
/// units into the named position's holdings.
pub open spec fn spec_position_supply(
    mv: MarketView,
    id: u64,
    supplies: Seq<(u64, Dec)>,
    now: i64,
) -> Result<(MarketView, Seq<(u64, Dec)>), LendError> {
    if !mv.positions.contains_key(id) {
        Err(LendError::StateViolation)
    } else if supplies.len() == 0 {
        Err(LendError::InvalidInput)
    } else {
        match spec_supply_all(mv.assets, supplies, now) {
            Err(e) => Err(e),
            Ok(p) => match spec_apply_deltas_entries(mv.positions[id].supply, increases_of(p.1)) {
                Err(e) => Err(e),
                Ok(sentries) => Ok(
                    (
                        MarketView {
                            assets: p.0,
                            positions: mv.positions.insert(
                                id,
                                PositionView { supply: sentries, debt: mv.positions[id].debt },
                            ),
                            position_id: mv.position_id,
                        },
                        p.1,
                    ),
                ),
            },
        }
    }
}

/// The USD value of one side of a position, walked entry by entry from
/// the left: each referenced cluster is force-accrued once (unless its
/// asset was already accrued in the `already` pass), the units are
/// converted to an amount at the accrued ratio, multiplied by the oracle
/// price, and summed. A missing asset or price is a state violation; a
/// sum or product past the representable range is an arithmetic failure.
pub open spec fn spec_side_step(
    assets: Seq<AssetEntry>,
    acc: Dec,
    addr: u64,
    units: Dec,
    layer: ClusterLayer,
    already: Seq<(u64, Dec)>,
    prices: Map<u64, Dec>,
    now: i64,
) -> Result<(Seq<AssetEntry>, Dec), LendError> {
    if !has_asset(assets, addr) {
        Err(LendError::StateViolation)
    } else {
        let i = asset_index(assets, addr);
        let entry = assets[i];
        let tick_r = if has_key(already, addr) {
            Ok(entry.cluster)
        } else {
            spec_ticked(entry.cluster, true, now)
        };
        match tick_r {
            Err(e) => Err(e),
            Ok(c1) => {
                let a2 = assets.update(i, AssetEntry { cluster: c1, ..entry });
                match spec_amount_for(c1, layer, units) {
                    Err(e) => Err(e),
                    Ok(amount) => {
                        if !prices.contains_key(addr) {
                            Err(LendError::StateViolation)
                        } else {
                            let v = rhe(amount.raw * prices[addr].raw, SCALE as int);
                            if v > MAX_RAW {
                                Err(LendError::ArithmeticFailure)
                            } else if acc.raw + v > MAX_RAW {
                                Err(LendError::ArithmeticFailure)
                            } else {
                                Ok((a2, Dec { raw: (acc.raw + v) as u64 }))
                            }
                        }
                    },
                }
            },
        }
    }
}

pub open spec fn spec_side_values(
    assets: Seq<AssetEntry>,
    entries: Seq<(u64, Dec)>,
    layer: ClusterLayer,
    already: Seq<(u64, Dec)>,
    prices: Map<u64, Dec>,
    now: i64,
) -> Result<(Seq<AssetEntry>, Dec), LendError>
    decreases entries.len(),
{
    if entries.len() == 0 {
        Ok((assets, Dec { raw: 0 }))
    } else {
        match spec_side_values(assets, entries.drop_last(), layer, already, prices, now) {
            Err(e) => Err(e),
            Ok(p) => spec_side_step(
                p.0,
                p.1,
                entries.last().0,
                entries.last().1,
                layer,
                already,
                prices,
                now,
            ),
        }
    }
}

/// A side walk that fails on a prefix fails the same way as a whole.
pub proof fn lemma_side_values_err_prefix(
    assets: Seq<AssetEntry>,
    entries: Seq<(u64, Dec)>,
    layer: ClusterLayer,
    already: Seq<(u64, Dec)>,
    prices: Map<u64, Dec>,
    now: i64,
    i: int,
)
    requires
        0 <= i <= entries.len(),
        spec_side_values(assets, entries.take(i), layer, already, prices, now) is Err,
    ensures
        spec_side_values(assets, entries, layer, already, prices, now) == spec_side_values(
            assets,
            entries.take(i),
            layer,
            already,
            prices,
            now,
        ),
    decreases entries.len(),
{
    if i < entries.len() {
        assert(entries.drop_last().take(i) =~= entries.take(i));
        lemma_side_values_err_prefix(assets, entries.drop_last(), layer, already, prices, now, i);
    } else {
        assert(entries.take(i) =~= entries);
    }
}

/// What `calculate_health_from_units` computes: the sentinel "infinite"
/// health for a debt-free position, otherwise the supply-side value
/// divided by the debt-side value, after force-accruing every referenced
/// cluster once.
pub open spec fn spec_calculate_health(
    assets: Seq<AssetEntry>,
    supply_entries: Seq<(u64, Dec)>,
    debt_entries: Seq<(u64, Dec)>,
    prices: Map<u64, Dec>,
    now: i64,
) -> Result<(Seq<AssetEntry>, Dec), LendError> {
    if debt_entries.len() == 0 {
        Ok((assets, Dec { raw: MAX_RAW }))
    } else {
        match spec_side_values(
            assets,
            supply_entries,
            ClusterLayer::Supply,
            Seq::empty(),
            prices,
            now,
        ) {
            Err(e) => Err(e),
            Ok(p) => match spec_side_values(
                p.0,
                debt_entries,
                ClusterLayer::Debt,
                supply_entries,
                prices,
                now,
            ) {
                Err(e) => Err(e),
                Ok(q) => {
                    if q.1.raw == 0 {
                        Err(LendError::ArithmeticFailure)
                    } else {
                        let h = rhe(p.1.raw * SCALE, q.1.raw as int);
                        if h > MAX_RAW {
                            Err(LendError::ArithmeticFailure)
                        } else {
                            Ok((q.0, Dec { raw: h as u64 }))
                        }
                    }
                },
            },
        }
    }
}

/// What `get_position_health` does: the health of the named position,
/// with the interest accruals it forced kept in the registry.
pub open spec fn spec_get_position_health(
    mv: MarketView,
    id: u64,
    prices: Map<u64, Dec>,
    now: i64,
) -> Result<(MarketView, Dec), LendError> {
    if !mv.positions.contains_key(id) {
        Err(LendError::StateViolation)
    } else {
        match spec_calculate_health(
            mv.assets,
            mv.positions[id].supply,
            mv.positions[id].debt,
            prices,
            now,
        ) {
            Err(e) => Err(e),
            Ok(p) => Ok((MarketView { assets: p.0, ..mv }, p.1)),
        }
    }
}

/// Borrowing a batch, asset by asset from the left: each amount must be
/// positive and its asset listed; the asset's cluster lends the amount
/// and the recorded debt units are collected alongside the amounts.
pub open spec fn spec_borrow_all(assets: Seq<AssetEntry>, debts: Seq<(u64, Dec)>, now: i64) -> Result<
    (Seq<AssetEntry>, Seq<(u64, Dec)>, Seq<(u64, Dec)>),
    LendError,
>
    decreases debts.len(),
{
    if debts.len() == 0 {
        Ok((assets, Seq::empty(), Seq::empty()))
    } else {
        match spec_borrow_all(assets, debts.drop_last(), now) {
            Err(e) => Err(e),
            Ok(p) => {
                let (addr, amount) = debts.last();
                if amount.raw == 0 {
                    Err(LendError::InvalidInput)
                } else if !has_asset(p.0, addr) || !p.0[asset_index(p.0, addr)].listed {
                    Err(LendError::StateViolation)
                } else {
                    let i = asset_index(p.0, addr);
                    match spec_borrow(p.0[i].cluster, amount, now) {
                        Err(e) => Err(e),
                        Ok(q) => Ok(
                            (
                                p.0.update(i, AssetEntry { cluster: q.0, ..p.0[i] }),
                                p.1.push((addr, q.1.0)),
                                p.2.push((addr, q.1.1)),
                            ),
                        ),
                    }
                }
            },
        }
    }
}

/// A borrow batch that fails on a prefix fails the same way as a whole.
pub proof fn lemma_borrow_all_err_prefix(
    assets: Seq<AssetEntry>,
    debts: Seq<(u64, Dec)>,
    now: i64,
    i: int,
)
    requires
        0 <= i <= debts.len(),
        spec_borrow_all(assets, debts.take(i), now) is Err,
    ensures
        spec_borrow_all(assets, debts, now) == spec_borrow_all(assets, debts.take(i), now),
    decreases debts.len(),
{
    if i < debts.len() {
        assert(debts.drop_last().take(i) =~= debts.take(i));
        lemma_borrow_all_err_prefix(assets, debts.drop_last(), now, i);
    } else {
        assert(debts.take(i) =~= debts);
    }
}

/// What `position_withdraw` does: cap the redeemed units by the optional
/// requested amount, shrink the position's holding, redeem the units at
/// the asset's cluster, and keep the result only when the position's
/// health stays at or above one. A position drained to empty is closed.
pub open spec fn spec_position_withdraw(
    mv: MarketView,
    id: u64,
    address: u64,
    units: Dec,
    requested: Option<Dec>,
    prices: Map<u64, Dec>,
    now: i64,
) -> Result<(MarketView, Dec, Dec), LendError> {
    if !mv.positions.contains_key(id) {
        Err(LendError::StateViolation)
    } else if units.raw == 0 {
        Err(LendError::InvalidInput)
    } else if !has_asset(mv.assets, address) {
        Err(LendError::StateViolation)
    } else {
        let ai = asset_index(mv.assets, address);
        let c0 = mv.assets[ai].cluster;
        let runits_r = match requested {
            Option::Some(req) => spec_units_for(c0, ClusterLayer::Supply, req),
            Option::None => Ok(units),
        };
        match runits_r {
            Err(e) => Err(e),
            Ok(runits) => {
                let ua = if units.raw <= runits.raw {
                    units
                } else {
                    runits
                };
                match spec_apply_delta_entries(
                    mv.positions[id].supply,
                    address,
                    UnitDelta::Decrease(ua),
                ) {
                    Err(e) => Err(e),
                    Ok(sentries) => match spec_withdraw(c0, ua, now) {
                        Err(e) => Err(e),
                        Ok(w) => {
                            let a1 = mv.assets.update(
                                ai,
                                AssetEntry { cluster: w.0, ..mv.assets[ai] },
                            );
                            let debt = mv.positions[id].debt;
                            match spec_calculate_health(a1, sentries, debt, prices, now) {
                                Err(e) => Err(e),
                                Ok(h) => {
                                    if h.1.raw < SCALE {
                                        Err(LendError::HealthViolation)
                                    } else {
                                        let positions1 = if sentries.len() == 0 && debt.len()
                                            == 0 {
                                            mv.positions.remove(id)
                                        } else {
                                            mv.positions.insert(
                                                id,
                                                PositionView { supply: sentries, debt },
                                            )
                                        };
                                        Ok(
                                            (
                                                MarketView {
                                                    assets: h.0,
                                                    positions: positions1,
                                                    position_id: mv.position_id,
                                                },
                                                Dec { raw: (units.raw - ua.raw) as u64 },
                                                w.1,
                                            ),
                                        )
                                    }
                                },
                            }
                        },
                    },
                }
            },
        }
    }
}

/// What `position_borrow` does: borrow every amount, fold the recorded
/// debt units into the position, and keep the result only when the
/// position's health stays at or above one.
pub open spec fn spec_position_borrow(
    mv: MarketView,
    id: u64,
    debts: Seq<(u64, Dec)>,
    prices: Map<u64, Dec>,
    now: i64,
) -> Result<(MarketView, Seq<(u64, Dec)>), LendError> {
    if !mv.positions.contains_key(id) {
        Err(LendError::StateViolation)
    } else {
        match spec_borrow_all(mv.assets, debts, now) {
            Err(e) => Err(e),
            Ok(t) => match spec_apply_deltas_entries(mv.positions[id].debt, increases_of(t.2)) {
                Err(e) => Err(e),
                Ok(dentries) => match spec_calculate_health(
                    t.0,
                    mv.positions[id].supply,
                    dentries,
                    prices,
                    now,
                ) {
                    Err(e) => Err(e),
                    Ok(h) => {
                        if h.1.raw < SCALE {
                            Err(LendError::HealthViolation)
                        } else {
                            Ok(
                                (
                                    MarketView {
                                        assets: h.0,
                                        positions: mv.positions.insert(
                                            id,
                                            PositionView {
                                                supply: mv.positions[id].supply,
                                                debt: dentries,
                                            },
                                        ),
                                        position_id: mv.position_id,
                                    },
                                    t.1,
                                ),
                            )
                        }
                    },
                },
            },
        }
    }
}

/// What `position_repay` does: cap the repayment by the debt actually
/// owed and the optional requested amount, repay the asset's cluster,
/// shrink the position's debt by the cleared units, and return the
/// unconsumed remainder. A position drained to empty is closed.
pub open spec fn spec_position_repay(
    mv: MarketView,
    id: u64,
    address: u64,
    amount: Dec,
    requested: Option<Dec>,
    now: i64,
) -> Result<(MarketView, Dec, Dec), LendError> {
    if !mv.positions.contains_key(id) {
        Err(LendError::StateViolation)
    } else if amount.raw == 0 {
        Err(LendError::InvalidInput)
    } else if !has_key(mv.positions[id].debt, address) {
        Err(LendError::StateViolation)
    } else if !has_asset(mv.assets, address) {
        Err(LendError::StateViolation)
    } else {
        let ai = asset_index(mv.assets, address);
        let c0 = mv.assets[ai].cluster;
        let owed_units = mv.positions[id].debt[key_index(mv.positions[id].debt, address)].1;
        match spec_amount_for(c0, ClusterLayer::Debt, owed_units) {
            Err(e) => Err(e),
            Ok(owed_amount) => {
                let cap1 = if amount.raw <= owed_amount.raw {
                    amount
                } else {
                    owed_amount
                };
                let cap = match requested {
                    Option::Some(rq) => if cap1.raw <= rq.raw {
                        cap1
                    } else {
                        rq
                    },
                    Option::None => cap1,
                };
                match spec_repay(c0, cap, now) {
                    Err(e) => Err(e),
                    Ok(rp) => match spec_apply_delta_entries(
                        mv.positions[id].debt,
                        address,
                        UnitDelta::Decrease(rp.1),
                    ) {
                        Err(e) => Err(e),
                        Ok(dentries) => {
                            let a1 = mv.assets.update(
                                ai,
                                AssetEntry { cluster: rp.0, ..mv.assets[ai] },
                            );
                            let supply = mv.positions[id].supply;
                            let positions1 = if supply.len() == 0 && dentries.len() == 0 {
                                mv.positions.remove(id)
                            } else {
                                mv.positions.insert(id, PositionView { supply, debt: dentries })
                            };
                            Ok(
                                (
                                    MarketView {
                                        assets: a1,
                                        positions: positions1,
                                        position_id: mv.position_id,
                                    },
                                    Dec { raw: (amount.raw - cap.raw) as u64 },
                                    rp.1,
                                ),
                            )
                        },
                    },
                }
            },
        }
    }
}

/// Health gate, borrow side: a borrow whose tentative post-operation
/// health falls below one fails with a health violation, and the
/// operation's contract then guarantees that every cluster and every
/// position is left exactly as it was.
pub proof fn lemma_health_gate_borrow(
    mv: MarketView,
    id: u64,
    debts: Seq<(u64, Dec)>,
    prices: Map<u64, Dec>,
    now: i64,
    t: (Seq<AssetEntry>, Seq<(u64, Dec)>, Seq<(u64, Dec)>),
    dentries: Seq<(u64, Dec)>,
    h: (Seq<AssetEntry>, Dec),
)
    requires
        mv.positions.contains_key(id),
        spec_borrow_all(mv.assets, debts, now) == Ok::<
            (Seq<AssetEntry>, Seq<(u64, Dec)>, Seq<(u64, Dec)>),
            LendError,
        >(t),
        spec_apply_deltas_entries(mv.positions[id].debt, increases_of(t.2)) == Ok::<
            Seq<(u64, Dec)>,
            LendError,
        >(dentries),
        spec_calculate_health(t.0, mv.positions[id].supply, dentries, prices, now) == Ok::<
            (Seq<AssetEntry>, Dec),
            LendError,
        >(h),
        h.1.raw < SCALE,
    ensures
        spec_position_borrow(mv, id, debts, prices, now) == Err::<
            (MarketView, Seq<(u64, Dec)>),
            LendError,
        >(LendError::HealthViolation),
{
}

/// Health gate, withdraw side: a withdraw whose tentative post-operation
/// health falls below one fails with a health violation, and the
/// operation's contract then guarantees that every cluster and every
/// position is left exactly as it was.
pub proof fn lemma_health_gate_withdraw(
    mv: MarketView,
    id: u64,
    address: u64,
    units: Dec,
    requested: Option<Dec>,
    prices: Map<u64, Dec>,
    now: i64,
    runits: Dec,
    sentries: Seq<(u64, Dec)>,
    w: (Cluster, Dec),
    h: (Seq<AssetEntry>, Dec),
)
    requires
        mv.positions.contains_key(id),
        units.raw > 0,
        has_asset(mv.assets, address),
        (match requested {
            Option::Some(req) => spec_units_for(
                mv.assets[asset_index(mv.assets, address)].cluster,
                ClusterLayer::Supply,
                req,
            ),
            Option::None => Ok(units),
        }) == Ok::<Dec, LendError>(runits),
        spec_apply_delta_entries(
            mv.positions[id].supply,
            address,
            UnitDelta::Decrease(
                if units.raw <= runits.raw {
                    units
                } else {
                    runits
                },
            ),
        ) == Ok::<Seq<(u64, Dec)>, LendError>(sentries),
        spec_withdraw(
            mv.assets[asset_index(mv.assets, address)].cluster,
            if units.raw <= runits.raw {
                units
            } else {
                runits
            },
            now,
        ) == Ok::<(Cluster, Dec), LendError>(w),
        spec_calculate_health(
            mv.assets.update(
                asset_index(mv.assets, address),
                AssetEntry { cluster: w.0, ..mv.assets[asset_index(mv.assets, address)] },
            ),
            sentries,
            mv.positions[id].debt,
            prices,
            now,
        ) == Ok::<(Seq<AssetEntry>, Dec), LendError>(h),
        h.1.raw < SCALE,
    ensures
        spec_position_withdraw(mv, id, address, units, requested, prices, now) == Err::<
            (MarketView, Dec, Dec),
            LendError,
        >(LendError::HealthViolation),
{
}

/// What `close_position` does: a position with no holdings and no debts
/// is removed from the registry and its credential number retired.
pub open spec fn spec_close_position(mv: MarketView, id: u64) -> Result<MarketView, LendError> {
    if !mv.positions.contains_key(id) {
        Err(LendError::StateViolation)
    } else if mv.positions[id].debt.len() != 0 || mv.positions[id].supply.len() != 0 {
        Err(LendError::StateViolation)
    } else {
        Ok(MarketView { positions: mv.positions.remove(id), ..mv })
    }
}

/// The multi-asset market engine: the asset registry with one cluster per
/// asset, the open positions keyed by credential number, and the
/// credential counter.
#[derive(Debug)]
pub struct Lattic3 {
    pub assets: Vec<AssetEntry>,
    pub positions: Vec<(u64, Position)>,
    pub position_id: u64,
}

impl View for Lattic3 {
    type V = MarketView;

    open spec fn view(&self) -> MarketView {
        MarketView {
            assets: self.assets@,
            positions: positions_map_of(self.positions@),
            position_id: self.position_id,
        }
    }
}

impl Lattic3 {
    /// The asset registry and the position registry are well-formed, and
    /// every issued identifier is at most the credential counter.
    pub open spec fn wf(self) -> bool {
        &&& assets_wf(self.assets@)
        &&& pos_ids_unique(self.positions@)
        &&& forall|i: int|
            0 <= i < self.positions@.len() ==> (#[trigger] self.positions@[i]).1.wf()
                && self.positions@[i].0 <= self.position_id
    }

    /// A fresh market with no assets and no positions.
    pub fn instantiate() -> (m: Lattic3)
        ensures
            m.wf(),
            m@.assets == Seq::<AssetEntry>::empty(),
            m@.positions == Map::<u64, PositionView>::empty(),
            m@.position_id == 0,
    {
        let m = Lattic3 { assets: Vec::new(), positions: Vec::new(), position_id: 0 };
        proof {
            assert(m@.assets =~= Seq::<AssetEntry>::empty());
        }
        m
    }

    /// The registry slot holding asset `address`, if any.
    fn find_asset(assets: &Vec<AssetEntry>, address: u64) -> (r: Option<usize>)
        requires
            assets_wf(assets@),
        ensures
            match r {
                Some(i) => i < assets@.len() && assets@[i as int].address == address && i as int
                    == asset_index(assets@, address) && has_asset(assets@, address),
                None => !has_asset(assets@, address),
            },
    {
        let n: usize = assets.len();
        let mut i: usize = 0;
        while i < n
            invariant
                i <= n,
                n == assets@.len(),
                assets_wf(assets@),
                forall|j: int| 0 <= j < i ==> assets@[j].address != address,
            decreases n - i,
        {
            if assets[i].address == address {
                proof {
                    assert(assets@[i as int].address == address);
                    let ki = asset_index(assets@, address);
                    assert(0 <= ki < assets@.len() && assets@[ki].address == address);
                    assert(ki == i);
                }
                return Some(i);
            }
            i = i + 1;
        }
        None
    }

    /// The registry slot holding position `id`, if any.
    fn find_position(positions: &Vec<(u64, Position)>, id: u64) -> (r: Option<usize>)
        requires
            pos_ids_unique(positions@),
        ensures
            match r {
                Some(i) => i < positions@.len() && positions@[i as int].0 == id && i as int
                    == position_index(positions@, id) && has_position(positions@, id),
                None => !has_position(positions@, id),
            },
    {
        let n: usize = positions.len();
        let mut i: usize = 0;
        while i < n
            invariant
                i <= n,
                n == positions@.len(),
                pos_ids_unique(positions@),
                forall|j: int| 0 <= j < i ==> positions@[j].0 != id,
            decreases n - i,
        {
            if positions[i].0 == id {
                proof {
                    assert(positions@[i as int].0 == id);
                    let ki = position_index(positions@, id);
                    assert(0 <= ki < positions@.len() && positions@[ki].0 == id);
                    assert(ki == i);
                }
                return Some(i);
            }
            i = i + 1;
        }
        None
    }

    /// An independent copy of the asset registry, for staging.
    fn copy_assets(assets: &Vec<AssetEntry>) -> (r: Vec<AssetEntry>)
        ensures
            r@ == assets@,
    {
        let n: usize = assets.len();
        let mut v: Vec<AssetEntry> = Vec::new();
        let mut i: usize = 0;
        while i < n
            invariant
                i <= n,
                n == assets@.len(),
                v@ == assets@.take(i as int),
            decreases n - i,
        {
            v.push(assets[i]);
            proof {
                assert(v@ =~= assets@.take(i + 1 as int));
            }
            i = i + 1;
        }
        proof {
            assert(v@ =~= assets@);
        }
        v
    }

    /// Lists a new asset: creates its cluster at time `now` and tracks it.
    /// An asset that already has an entry is rejected.
    pub fn add_asset(&mut self, address: u64, now: i64) -> (r: Result<(), LendError>)
        requires
            old(self).wf(),
        ensures
            final(self).wf(),
            has_asset(old(self)@.assets, address) ==> r == Err::<(), LendError>(
                LendError::StateViolation,
            ) && *final(self) == *old(self),
            !has_asset(old(self)@.assets, address) ==> r is Ok && final(self)@.assets == old(
                self,
            )@.assets.push(
                AssetEntry {
                    address,
                    listed: true,
                    cluster: crate::cluster::spec_fresh_cluster(address, now),
                },
            ) && final(self)@.positions == old(self)@.positions && final(self)@.position_id == old(
                self,
            )@.position_id,
    {
        match Self::find_asset(&self.assets, address) {
            Some(_) => Err(LendError::StateViolation),
            None => {
                let entry = AssetEntry {
                    address,
                    listed: true,
                    cluster: Cluster::instantiate(address, now),
                };
                self.assets.push(entry);
                Ok(())
            },
        }
    }

    /// Marks an existing, currently untracked asset as listed, making it
    /// eligible for new allocations again.
    pub fn track_asset(&mut self, address: u64) -> (r: Result<(), LendError>)
        requires
            old(self).wf(),
        ensures
            final(self).wf(),
            (!has_asset(old(self)@.assets, address) || old(self)@.assets[asset_index(
                old(self)@.assets,
                address,
            )].listed) ==> r == Err::<(), LendError>(LendError::StateViolation) && *final(self)
                == *old(self),
            (has_asset(old(self)@.assets, address) && !old(self)@.assets[asset_index(
                old(self)@.assets,
                address,
            )].listed) ==> r is Ok && final(self)@.assets == old(self)@.assets.update(
                asset_index(old(self)@.assets, address),
                AssetEntry {
                    listed: true,
                    ..old(self)@.assets[asset_index(old(self)@.assets, address)]
                },
            ) && final(self)@.positions == old(self)@.positions && final(self)@.position_id == old(
                self,
            )@.position_id,
    {
        match Self::find_asset(&self.assets, address) {
            None => Err(LendError::StateViolation),
            Some(i) => {
                let e = self.assets[i];
                if e.listed {
                    Err(LendError::StateViolation)
                } else {
                    self.assets[i] = AssetEntry { listed: true, ..e };
                    Ok(())
                }
            },
        }
    }

    /// Supplies each listed amount to its cluster, on a staged copy of
    /// the asset registry. Returns the issued units and the matching
    /// position deltas; on failure the staged registry is abandoned.
    fn supply_all(staged: &mut Vec<AssetEntry>, supplies: &Vec<(u64, Dec)>, now: i64) -> (r:
        Result<(Vec<(u64, Dec)>, Vec<(u64, UnitDelta)>), LendError>)
        requires
            assets_wf(old(staged)@),
            forall|i: int| 0 <= i < supplies@.len() ==> (#[trigger] supplies@[i]).1.valid(),
        ensures
            match spec_supply_all(old(staged)@, supplies@, now) {
                Ok(p) => (r matches Ok(out) && final(staged)@ == p.0 && out.0@ == p.1 && out.1@
                    == increases_of(p.1) && assets_wf(final(staged)@) && (forall|j: int|
                    0 <= j < out.0@.len() ==> (#[trigger] out.0@[j]).1.valid())),
                Err(e) => r == Err::<(Vec<(u64, Dec)>, Vec<(u64, UnitDelta)>), LendError>(e),
            },
    {
        let n: usize = supplies.len();
        let mut units: Vec<(u64, Dec)> = Vec::new();
        let mut deltas: Vec<(u64, UnitDelta)> = Vec::new();
        let mut i: usize = 0;
        proof {
            assert(units@ =~= Seq::<(u64, Dec)>::empty());
            assert(deltas@ =~= increases_of(units@));
        }
        while i < n
            invariant
                i <= n,
                n == supplies@.len(),
                assets_wf(staged@),
                forall|j: int| 0 <= j < supplies@.len() ==> (#[trigger] supplies@[j]).1.valid(),
                spec_supply_all(old(staged)@, supplies@.take(i as int), now) == Ok::<
                    (Seq<AssetEntry>, Seq<(u64, Dec)>),
                    LendError,
                >((staged@, units@)),
                deltas@ == increases_of(units@),
                forall|j: int| 0 <= j < units@.len() ==> (#[trigger] units@[j]).1.valid(),
            decreases n - i,
        {
            let ghost prefix = supplies@.take(i as int);
            let ghost pre_assets = staged@;
            let ghost pre_units = units@;
            let (addr, amount) = supplies[i];
            proof {
                assert(supplies@.take(i + 1 as int).drop_last() =~= prefix);
                assert(supplies@.take(i + 1 as int).last() == (addr, amount));
            }
            if amount.is_zero() {
                proof {
                    lemma_supply_all_err_prefix(old(staged)@, supplies@, now, i + 1);
                }
                return Err(LendError::InvalidInput);
            }
            let ai: usize = match Self::find_asset(staged, addr) {
                Some(ai) => ai,
                None => {
                    proof {
                        lemma_supply_all_err_prefix(old(staged)@, supplies@, now, i + 1);
                    }
                    return Err(LendError::StateViolation);
                },
            };
            let entry = staged[ai];
            if !entry.listed {
                proof {
                    lemma_supply_all_err_prefix(old(staged)@, supplies@, now, i + 1);
                }
                return Err(LendError::StateViolation);
            }
            let mut c: Cluster = entry.cluster;
            let u: Dec = match c.supply(amount, now) {
                Ok(u) => u,
                Err(e) => {
                    proof {
                        lemma_supply_all_err_prefix(old(staged)@, supplies@, now, i + 1);
                    }
                    return Err(e);
                },
            };
            staged[ai] = AssetEntry { cluster: c, ..entry };
            units.push((addr, u));
            deltas.push((addr, UnitDelta::Increase(u)));
            proof {
                assert(units@.drop_last() =~= pre_units);
                assert(deltas@ =~= increases_of(units@));
                assert(spec_supply_all(old(staged)@, supplies@.take(i + 1 as int), now) == Ok::<
                    (Seq<AssetEntry>, Seq<(u64, Dec)>),
                    LendError,
                >((staged@, units@)));
            }
            i = i + 1;
        }
        proof {
            assert(supplies@.take(n as int) =~= supplies@);
        }
        Ok((units, deltas))
    }

    /// Opens a new position funded by the given supplies: each amount goes
    /// to its asset's cluster, the issued units become the position's
    /// holdings, and a fresh credential number is returned together with
    /// the per-asset units. On failure nothing changes.
    pub fn open_position(&mut self, supplies: &Vec<(u64, Dec)>, now: i64) -> (r: Result<
        (u64, Vec<(u64, Dec)>),
        LendError,
    >)
        requires
            old(self).wf(),
            forall|i: int| 0 <= i < supplies@.len() ==> (#[trigger] supplies@[i]).1.valid(),
        ensures
            final(self).wf(),
            match spec_open_position(old(self)@, supplies@, now) {
                Ok(t) => (r matches Ok(out) && out.0 == t.1 && out.1@ == t.2 && final(self)@
                    == t.0),
                Err(e) => r == Err::<(u64, Vec<(u64, Dec)>), LendError>(e) && *final(self) == *old(
                    self,
                ),
            },
    {
        if supplies.len() == 0 {
            return Err(LendError::InvalidInput);
        }
        if self.position_id == u64::MAX {
            return Err(LendError::StateViolation);
        }
        let mut staged: Vec<AssetEntry> = Self::copy_assets(&self.assets);
        let (units, deltas) = match Self::supply_all(&mut staged, supplies, now) {
            Ok(x) => x,
            Err(e) => return Err(e),
        };
        let mut pos: Position = Position::new();
        match pos.update_supply(&deltas) {
            Ok(()) => {},
            Err(e) => return Err(e),
        }
        let id: u64 = self.position_id + 1;
        let ghost old_positions = self.positions@;
        self.assets = staged;
        self.positions.push((id, pos));
        self.position_id = id;
        proof {
            lemma_positions_push(old_positions, id, pos);
            assert(final(self).wf()) by {
                assert(forall|j: int|
                    0 <= j < old_positions.len() ==> self.positions@[j] == old_positions[j]);
                assert(self.positions@[old_positions.len() as int] == (id, pos));
            }
        }
        Ok((id, units))
    }

    /// Adds supplies to an existing position: each amount goes to its
    /// asset's cluster and the issued units are folded into the position's
    /// holdings. Returns the per-asset units. On failure nothing changes.
    pub fn position_supply(&mut self, position_id: u64, supplies: &Vec<(u64, Dec)>, now: i64) -> (r:
        Result<Vec<(u64, Dec)>, LendError>)
        requires
            old(self).wf(),
            forall|i: int| 0 <= i < supplies@.len() ==> (#[trigger] supplies@[i]).1.valid(),
        ensures
            final(self).wf(),
            match spec_position_supply(old(self)@, position_id, supplies@, now) {
                Ok(t) => (r matches Ok(out) && out@ == t.1 && final(self)@ == t.0),
                Err(e) => r == Err::<Vec<(u64, Dec)>, LendError>(e) && *final(self) == *old(self),
            },
    {
        proof {
            lemma_positions_contains(self.positions@, position_id);
        }
        let pidx: usize = match Self::find_position(&self.positions, position_id) {
            Some(i) => i,
            None => {
                return Err(LendError::StateViolation);
            },
        };
        proof {
            lemma_positions_index(self.positions@, pidx as int);
        }
        if supplies.len() == 0 {
            return Err(LendError::InvalidInput);
        }
        let mut staged: Vec<AssetEntry> = Self::copy_assets(&self.assets);
        let (units, deltas) = match Self::supply_all(&mut staged, supplies, now) {
            Ok(x) => x,
            Err(e) => return Err(e),
        };
        let mut pos: Position = self.positions[pidx].1.duplicate();
        match pos.update_supply(&deltas) {
            Ok(()) => {},
            Err(e) => return Err(e),
        }
        let ghost old_positions = self.positions@;
        self.assets = staged;
        self.positions[pidx] = (position_id, pos);
        proof {
            lemma_positions_update(old_positions, pidx as int, pos);
            assert(final(self).wf()) by {
                assert(forall|j: int|
                    0 <= j < old_positions.len() && j != pidx ==> self.positions@[j]
                        == old_positions[j]);
                assert(self.positions@[pidx as int] == (position_id, pos));
            }
        }
        Ok(units)
    }

    /// One entry of the health walk: accrue the asset's cluster if not
    /// yet accrued in this call, convert the units, price them, and add
    /// them to the running total.
    fn side_step(
        staged: &mut Vec<AssetEntry>,
        acc: Dec,
        addr: u64,
        units: Dec,
        layer: ClusterLayer,
        already: &ValueMap,
        prices: &ValueMap,
        now: i64,
    ) -> (r: Result<Dec, LendError>)
        requires
            assets_wf(old(staged)@),
            acc.valid(),
            units.valid(),
            already.wf(),
            prices.wf(),
            prices.values_valid(),
        ensures
            match spec_side_step(
                old(staged)@,
                acc,
                addr,
                units,
                layer,
                already.entries@,
                prices.as_map(),
                now,
            ) {
                Ok(p) => (r matches Ok(v) && v == p.1 && v.valid() && final(staged)@ == p.0
                    && assets_wf(final(staged)@)),
                Err(e) => r == Err::<Dec, LendError>(e),
            },
    {
        let ai: usize = match Self::find_asset(staged, addr) {
            Some(x) => x,
            None => {
                return Err(LendError::StateViolation);
            },
        };
        let entry = staged[ai];
        let mut c: Cluster = entry.cluster;
        let skip: bool = already.contains_key(addr);
        proof {
            crate::value_map::lemma_map_of_contains(already.entries@, addr);
        }
        if !skip {
            match c.tick_interest(true, now) {
                Ok(()) => {},
                Err(e) => {
                    return Err(e);
                },
            }
        }
        staged[ai] = AssetEntry { cluster: c, ..entry };
        let amount: Dec = match c.get_amount(layer, units) {
            Ok(a) => a,
            Err(e) => {
                return Err(e);
            },
        };
        let price: Dec = match prices.get(addr) {
            Some(p) => p,
            None => {
                return Err(LendError::StateViolation);
            },
        };
        let v: Dec = match amount.checked_mul(price) {
            Some(v) => v,
            None => {
                return Err(LendError::ArithmeticFailure);
            },
        };
        match acc.checked_add(v) {
            Some(a) => Ok(a),
            None => Err(LendError::ArithmeticFailure),
        }
    }

    /// One side of the health walk, on the staged registry. On failure
    /// the staged registry is abandoned.
    fn side_values(
        staged: &mut Vec<AssetEntry>,
        entries: &ValueMap,
        layer: ClusterLayer,
        already: &ValueMap,
        prices: &ValueMap,
        now: i64,
    ) -> (r: Result<Dec, LendError>)
        requires
            assets_wf(old(staged)@),
            entries.wf(),
            entries.values_valid(),
            already.wf(),
            prices.wf(),
            prices.values_valid(),
        ensures
            match spec_side_values(
                old(staged)@,
                entries.entries@,
                layer,
                already.entries@,
                prices.as_map(),
                now,
            ) {
                Ok(p) => (r matches Ok(v) && v == p.1 && v.valid() && final(staged)@ == p.0
                    && assets_wf(final(staged)@)),
                Err(e) => r == Err::<Dec, LendError>(e),
            },
    {
        let n: usize = entries.len();
        let mut acc: Dec = Dec::zero();
        let mut i: usize = 0;
        while i < n
            invariant
                i <= n,
                n == entries.entries@.len(),
                assets_wf(staged@),
                entries.wf(),
                entries.values_valid(),
                already.wf(),
                prices.wf(),
                prices.values_valid(),
                acc.valid(),
                spec_side_values(
                    old(staged)@,
                    entries.entries@.take(i as int),
                    layer,
                    already.entries@,
                    prices.as_map(),
                    now,
                ) == Ok::<(Seq<AssetEntry>, Dec), LendError>((staged@, acc)),
            decreases n - i,
        {
            let (addr, units) = entries.entry_at(i);
            proof {
                lemma_map_of_index(entries.entries@, i as int);
                assert(entries.as_map().contains_key(addr));
                assert(entries.as_map()[addr] == units);
                assert(units.valid());
                assert(entries.entries@.take(i + 1 as int).drop_last() =~= entries.entries@.take(
                    i as int,
                ));
                assert(entries.entries@.take(i + 1 as int).last() == (addr, units));
            }
            acc = match Self::side_step(staged, acc, addr, units, layer, already, prices, now) {
                Ok(a) => a,
                Err(e) => {
                    proof {
                        lemma_side_values_err_prefix(
                            old(staged)@,
                            entries.entries@,
                            layer,
                            already.entries@,
                            prices.as_map(),
                            now,
                            i + 1,
                        );
                    }
                    return Err(e);
                },
            };
            i = i + 1;
        }
        proof {
            assert(entries.entries@.take(n as int) =~= entries.entries@);
        }
        Ok(acc)
    }

    /// The health of the given unit maps, computed on the staged
    /// registry. On failure the staged registry is abandoned.
    fn health_of(
        staged: &mut Vec<AssetEntry>,
        supply_units: &ValueMap,
        debt_units: &ValueMap,
        prices: &ValueMap,
        now: i64,
    ) -> (r: Result<Dec, LendError>)
        requires
            assets_wf(old(staged)@),
            supply_units.wf(),
            supply_units.values_valid(),
            debt_units.wf(),
            debt_units.values_valid(),
            prices.wf(),
            prices.values_valid(),
        ensures
            match spec_calculate_health(
                old(staged)@,
                supply_units.entries@,
                debt_units.entries@,
                prices.as_map(),
                now,
            ) {
                Ok(p) => (r matches Ok(h) && h == p.1 && h.valid() && final(staged)@ == p.0
                    && assets_wf(final(staged)@)),
                Err(e) => r == Err::<Dec, LendError>(e),
            },
    {
        if debt_units.is_empty() {
            return Ok(Dec::max_value());
        }
        let empty_map: ValueMap = ValueMap::new();
        proof {
            assert(empty_map.entries@ =~= Seq::<(u64, Dec)>::empty());
        }
        let sv: Dec = match Self::side_values(
            staged,
            supply_units,
            ClusterLayer::Supply,
            &empty_map,
            prices,
            now,
        ) {
            Ok(v) => v,
            Err(e) => return Err(e),
        };
        let dv: Dec = match Self::side_values(
            staged,
            debt_units,
            ClusterLayer::Debt,
            supply_units,
            prices,
            now,
        ) {
            Ok(v) => v,
            Err(e) => return Err(e),
        };
        if dv.is_zero() {
            return Err(LendError::ArithmeticFailure);
        }
        match sv.checked_div(dv) {
            Some(h) => Ok(h),
            None => Err(LendError::ArithmeticFailure),
        }
    }

    /// The health of a pair of unit maps: supply-side USD value divided
    /// by debt-side USD value at the given oracle prices, after
    /// force-accruing every referenced cluster once (the accruals are
    /// kept). A debt-free position has the sentinel maximal health.
    pub fn calculate_health_from_units(
        &mut self,
        supply_units: &ValueMap,
        debt_units: &ValueMap,
        prices: &ValueMap,
        now: i64,
    ) -> (r: Result<Dec, LendError>)
        requires
            old(self).wf(),
            supply_units.wf(),
            supply_units.values_valid(),
            debt_units.wf(),
            debt_units.values_valid(),
            prices.wf(),
            prices.values_valid(),
        ensures
            final(self).wf(),
            match spec_calculate_health(
                old(self)@.assets,
                supply_units.entries@,
                debt_units.entries@,
                prices.as_map(),
                now,
            ) {
                Ok(p) => (r matches Ok(h) && h == p.1 && final(self)@.assets == p.0
                    && final(self)@.positions == old(self)@.positions
                    && final(self)@.position_id == old(self)@.position_id),
                Err(e) => r == Err::<Dec, LendError>(e) && *final(self) == *old(self),
            },
    {
        let mut staged: Vec<AssetEntry> = Self::copy_assets(&self.assets);
        match Self::health_of(&mut staged, supply_units, debt_units, prices, now) {
            Ok(h) => {
                self.assets = staged;
                Ok(h)
            },
            Err(e) => Err(e),
        }
    }

    /// The health of the named position, with the interest accruals it
    /// forced kept in the registry. On failure nothing changes.
    pub fn get_position_health(&mut self, position_id: u64, prices: &ValueMap, now: i64) -> (r:
        Result<Dec, LendError>)
        requires
            old(self).wf(),
            prices.wf(),
            prices.values_valid(),
        ensures
            final(self).wf(),
            match spec_get_position_health(old(self)@, position_id, prices.as_map(), now) {
                Ok(p) => (r matches Ok(h) && h == p.1 && final(self)@ == p.0),
                Err(e) => r == Err::<Dec, LendError>(e) && *final(self) == *old(self),
            },
    {
        proof {
            lemma_positions_contains(self.positions@, position_id);
        }
        let pidx: usize = match Self::find_position(&self.positions, position_id) {
            Some(i) => i,
            None => {
                return Err(LendError::StateViolation);
            },
        };
        proof {
            lemma_positions_index(self.positions@, pidx as int);
        }
        let mut staged: Vec<AssetEntry> = Self::copy_assets(&self.assets);
        let r = Self::health_of(
            &mut staged,
            &self.positions[pidx].1.supply,
            &self.positions[pidx].1.debt,
            prices,
            now,
        );
        match r {
            Ok(h) => {
                self.assets = staged;
                Ok(h)
            },
            Err(e) => Err(e),
        }
    }

    /// Borrows each listed amount from its cluster, on a staged copy of
    /// the asset registry. Returns the borrowed amounts and the position
    /// deltas for the recorded debt units.
    fn borrow_all(staged: &mut Vec<AssetEntry>, debts: &Vec<(u64, Dec)>, now: i64) -> (r: Result<
        (Vec<(u64, Dec)>, Vec<(u64, UnitDelta)>),
        LendError,
    >)
        requires
            assets_wf(old(staged)@),
            forall|i: int| 0 <= i < debts@.len() ==> (#[trigger] debts@[i]).1.valid(),
        ensures
            match spec_borrow_all(old(staged)@, debts@, now) {
                Ok(p) => (r matches Ok(out) && final(staged)@ == p.0 && out.0@ == p.1 && out.1@
                    == increases_of(p.2) && assets_wf(final(staged)@) && (forall|j: int|
                    0 <= j < out.1@.len() ==> unit_delta_valid((#[trigger] out.1@[j]).1))),
                Err(e) => r == Err::<(Vec<(u64, Dec)>, Vec<(u64, UnitDelta)>), LendError>(e),
            },
    {
        let n: usize = debts.len();
        let mut amounts: Vec<(u64, Dec)> = Vec::new();
        let mut units: Vec<(u64, Dec)> = Vec::new();
        let mut deltas: Vec<(u64, UnitDelta)> = Vec::new();
        let mut i: usize = 0;
        proof {
            assert(amounts@ =~= Seq::<(u64, Dec)>::empty());
            assert(units@ =~= Seq::<(u64, Dec)>::empty());
            assert(deltas@ =~= increases_of(units@));
        }
        while i < n
            invariant
                i <= n,
                n == debts@.len(),
                assets_wf(staged@),
                forall|j: int| 0 <= j < debts@.len() ==> (#[trigger] debts@[j]).1.valid(),
                spec_borrow_all(old(staged)@, debts@.take(i as int), now) == Ok::<
                    (Seq<AssetEntry>, Seq<(u64, Dec)>, Seq<(u64, Dec)>),
                    LendError,
                >((staged@, amounts@, units@)),
                deltas@ == increases_of(units@),
                forall|j: int| 0 <= j < deltas@.len() ==> unit_delta_valid(
                    (#[trigger] deltas@[j]).1,
                ),
            decreases n - i,
        {
            let ghost pre_units = units@;
            let (addr, amount) = debts[i];
            proof {
                assert(debts@.take(i + 1 as int).drop_last() =~= debts@.take(i as int));
                assert(debts@.take(i + 1 as int).last() == (addr, amount));
            }
            if amount.is_zero() {
                proof {
                    lemma_borrow_all_err_prefix(old(staged)@, debts@, now, i + 1);
                }
                return Err(LendError::InvalidInput);
            }
            let ai: usize = match Self::find_asset(staged, addr) {
                Some(ai) => ai,
                None => {
                    proof {
                        lemma_borrow_all_err_prefix(old(staged)@, debts@, now, i + 1);
                    }
                    return Err(LendError::StateViolation);
                },
            };
            let entry = staged[ai];
            if !entry.listed {
                proof {
                    lemma_borrow_all_err_prefix(old(staged)@, debts@, now, i + 1);
                }
                return Err(LendError::StateViolation);
            }
            let mut c: Cluster = entry.cluster;
            let out: (Dec, Dec) = match c.borrow(amount, now) {
                Ok(o) => o,
                Err(e) => {
                    proof {
                        lemma_borrow_all_err_prefix(old(staged)@, debts@, now, i + 1);
                    }
                    return Err(e);
                },
            };
            staged[ai] = AssetEntry { cluster: c, ..entry };
            amounts.push((addr, out.0));
            units.push((addr, out.1));
            deltas.push((addr, UnitDelta::Increase(out.1)));
            proof {
                assert(units@.drop_last() =~= pre_units);
                assert(deltas@ =~= increases_of(units@));
                assert(spec_borrow_all(old(staged)@, debts@.take(i + 1 as int), now) == Ok::<
                    (Seq<AssetEntry>, Seq<(u64, Dec)>, Seq<(u64, Dec)>),
                    LendError,
                >((staged@, amounts@, units@)));
            }
            i = i + 1;
        }
        proof {
            assert(debts@.take(n as int) =~= debts@);
        }
        Ok((amounts, deltas))
    }

    /// Withdraws supplied assets from a position: redeems up to the
    /// given units (optionally capped by a requested asset amount),
    /// keeps the result only when the position's health stays at or
    /// above one, and returns the unredeemed units together with the
    /// withdrawn amount. On failure nothing changes.
    #[verifier::rlimit(100)]
    pub fn position_withdraw(
        &mut self,
        position_id: u64,
        address: u64,
        units: Dec,
        requested: Option<Dec>,
        prices: &ValueMap,
        now: i64,
    ) -> (r: Result<(Dec, Dec), LendError>)
        requires
            old(self).wf(),
            units.valid(),
            requested matches Some(q) ==> q.valid(),
            prices.wf(),
            prices.values_valid(),
        ensures
            final(self).wf(),
            match spec_position_withdraw(
                old(self)@,
                position_id,
                address,
                units,
                requested,
                prices.as_map(),
                now,
            ) {
                Ok(t) => (r matches Ok(out) && out.0 == t.1 && out.1 == t.2 && final(self)@
                    == t.0),
                Err(e) => r == Err::<(Dec, Dec), LendError>(e) && *final(self) == *old(self),
            },
    {
        proof {
            lemma_positions_contains(self.positions@, position_id);
        }
        let pidx: usize = match Self::find_position(&self.positions, position_id) {
            Some(i) => i,
            None => {
                return Err(LendError::StateViolation);
            },
        };
        proof {
            lemma_positions_index(self.positions@, pidx as int);
        }
        if units.is_zero() {
            return Err(LendError::InvalidInput);
        }
        let ai: usize = match Self::find_asset(&self.assets, address) {
            Some(i) => i,
            None => {
                return Err(LendError::StateViolation);
            },
        };
        let c0: Cluster = self.assets[ai].cluster;
        let runits: Dec = match requested {
            Some(req) => match c0.get_units(ClusterLayer::Supply, req) {
                Ok(u) => u,
                Err(e) => return Err(e),
            },
            None => units,
        };
        let ua: Dec = units.min(runits);
        let mut pos: Position = self.positions[pidx].1.duplicate();
        let mut deltas: Vec<(u64, UnitDelta)> = Vec::new();
        deltas.push((address, UnitDelta::Decrease(ua)));
        let ghost pos0_supply = pos@.supply;
        proof {
            assert(forall|j: int|
                0 <= j < deltas@.len() ==> unit_delta_valid((#[trigger] deltas@[j]).1));
            assert(deltas@.len() == 1);
            assert(deltas@.drop_last() =~= Seq::<(u64, UnitDelta)>::empty());
            assert(deltas@.last() == (address, UnitDelta::Decrease(ua)));
            assert(spec_apply_deltas_entries(pos0_supply, deltas@.drop_last()) == Ok::<
                Seq<(u64, Dec)>,
                LendError,
            >(pos0_supply));
            assert(spec_apply_deltas_entries(pos0_supply, deltas@) == spec_apply_delta_entries(
                pos0_supply,
                address,
                UnitDelta::Decrease(ua),
            ));
        }
        match pos.update_supply(&deltas) {
            Ok(()) => {},
            Err(e) => {
                return Err(e);
            },
        }
        let mut staged: Vec<AssetEntry> = Self::copy_assets(&self.assets);
        let entry = staged[ai];
        let mut c: Cluster = entry.cluster;
        let amount: Dec = match c.withdraw(ua, now) {
            Ok(a) => a,
            Err(e) => return Err(e),
        };
        staged[ai] = AssetEntry { cluster: c, ..entry };
        let h: Dec = match Self::health_of(&mut staged, &pos.supply, &pos.debt, prices, now) {
            Ok(h) => h,
            Err(e) => return Err(e),
        };
        if h.raw < SCALE {
            return Err(LendError::HealthViolation);
        }
        let ghost old_positions = self.positions@;
        self.assets = staged;
        if pos.supply.is_empty() && pos.debt.is_empty() {
            self.positions.remove(pidx);
            proof {
                lemma_positions_remove(old_positions, pidx as int);
                assert(final(self).wf()) by {
                    assert(forall|j: int|
                        0 <= j < self.positions@.len() ==> self.positions@[j]
                            == old_positions[j as int] || self.positions@[j] == old_positions[j
                            + 1]);
                }
            }
        } else {
            self.positions[pidx] = (position_id, pos);
            proof {
                lemma_positions_update(old_positions, pidx as int, pos);
                assert(final(self).wf()) by {
                    assert(forall|j: int|
                        0 <= j < old_positions.len() && j != pidx ==> self.positions@[j]
                            == old_positions[j]);
                    assert(self.positions@[pidx as int] == (position_id, pos));
                }
            }
        }
        Ok((Dec { raw: units.raw - ua.raw }, amount))
    }

    /// Borrows assets against a position's collateral: each amount is
    /// lent by its cluster and the recorded debt units are folded into
    /// the position; the operation holds only when the position's health
    /// stays at or above one. Returns the borrowed amounts. On failure
    /// nothing changes.
    pub fn position_borrow(
        &mut self,
        position_id: u64,
        debts: &Vec<(u64, Dec)>,
        prices: &ValueMap,
        now: i64,
    ) -> (r: Result<Vec<(u64, Dec)>, LendError>)
        requires
            old(self).wf(),
            forall|i: int| 0 <= i < debts@.len() ==> (#[trigger] debts@[i]).1.valid(),
            prices.wf(),
            prices.values_valid(),
        ensures
            final(self).wf(),
            match spec_position_borrow(old(self)@, position_id, debts@, prices.as_map(), now) {
                Ok(t) => (r matches Ok(out) && out@ == t.1 && final(self)@ == t.0),
                Err(e) => r == Err::<Vec<(u64, Dec)>, LendError>(e) && *final(self) == *old(self),
            },
    {
        proof {
            lemma_positions_contains(self.positions@, position_id);
        }
        let pidx: usize = match Self::find_position(&self.positions, position_id) {
            Some(i) => i,
            None => {
                return Err(LendError::StateViolation);
            },
        };
        proof {
            lemma_positions_index(self.positions@, pidx as int);
        }
        let mut staged: Vec<AssetEntry> = Self::copy_assets(&self.assets);
        let (amounts, deltas) = match Self::borrow_all(&mut staged, debts, now) {
            Ok(x) => x,
            Err(e) => return Err(e),
        };
        let mut pos: Position = self.positions[pidx].1.duplicate();
        match pos.update_debt(&deltas) {
            Ok(()) => {},
            Err(e) => return Err(e),
        }
        let h: Dec = match Self::health_of(&mut staged, &pos.supply, &pos.debt, prices, now) {
            Ok(h) => h,
            Err(e) => return Err(e),
        };
        if h.raw < SCALE {
            return Err(LendError::HealthViolation);
        }
        let ghost old_positions = self.positions@;
        self.assets = staged;
        self.positions[pidx] = (position_id, pos);
        proof {
            lemma_positions_update(old_positions, pidx as int, pos);
            assert(final(self).wf()) by {
                assert(forall|j: int|
                    0 <= j < old_positions.len() && j != pidx ==> self.positions@[j]
                        == old_positions[j]);
                assert(self.positions@[pidx as int] == (position_id, pos));
            }
        }
        Ok(amounts)
    }

    /// Repays a position's debt in one asset: the repayment is capped by
    /// the debt actually owed and the optional requested amount, the
    /// cleared debt units leave the position, and the unconsumed
    /// remainder is returned together with the cleared units. On failure
    /// nothing changes.
    #[verifier::rlimit(100)]
    pub fn position_repay(
        &mut self,
        position_id: u64,
        address: u64,
        amount: Dec,
        requested: Option<Dec>,
        now: i64,
    ) -> (r: Result<(Dec, Dec), LendError>)
        requires
            old(self).wf(),
            amount.valid(),
            requested matches Some(q) ==> q.valid(),
        ensures
            final(self).wf(),
            match spec_position_repay(old(self)@, position_id, address, amount, requested, now) {
                Ok(t) => (r matches Ok(out) && out.0 == t.1 && out.1 == t.2 && final(self)@
                    == t.0),
                Err(e) => r == Err::<(Dec, Dec), LendError>(e) && *final(self) == *old(self),
            },
    {
        proof {
            lemma_positions_contains(self.positions@, position_id);
        }
        let pidx: usize = match Self::find_position(&self.positions, position_id) {
            Some(i) => i,
            None => {
                return Err(LendError::StateViolation);
            },
        };
        proof {
            lemma_positions_index(self.positions@, pidx as int);
        }
        if amount.is_zero() {
            return Err(LendError::InvalidInput);
        }
        let owed_units: Dec = match self.positions[pidx].1.debt.get(address) {
            Some(u) => u,
            None => {
                proof {
                    crate::value_map::lemma_map_of_contains(
                        self.positions@[pidx as int].1.debt.entries@,
                        address,
                    );
                }
                return Err(LendError::StateViolation);
            },
        };
        proof {
            let s = self.positions@[pidx as int].1.debt.entries@;
            crate::value_map::lemma_map_of_contains(s, address);
            let ki = key_index(s, address);
            lemma_map_of_index(s, ki);
        }
        let ai: usize = match Self::find_asset(&self.assets, address) {
            Some(i) => i,
            None => {
                return Err(LendError::StateViolation);
            },
        };
        let c0: Cluster = self.assets[ai].cluster;
        let owed_amount: Dec = match c0.get_amount(ClusterLayer::Debt, owed_units) {
            Ok(a) => a,
            Err(e) => return Err(e),
        };
        let cap1: Dec = amount.min(owed_amount);
        let cap: Dec = match requested {
            Some(rq) => cap1.min(rq),
            None => cap1,
        };
        let mut staged: Vec<AssetEntry> = Self::copy_assets(&self.assets);
        let entry = staged[ai];
        let mut c: Cluster = entry.cluster;
        let units_repaid: Dec = match c.repay(cap, now) {
            Ok(u) => u,
            Err(e) => return Err(e),
        };
        staged[ai] = AssetEntry { cluster: c, ..entry };
        let mut pos: Position = self.positions[pidx].1.duplicate();
        proof {
            assert(self.positions@[pidx as int].1.wf());
            assert(pos.wf());
        }
        let mut deltas: Vec<(u64, UnitDelta)> = Vec::new();
        deltas.push((address, UnitDelta::Decrease(units_repaid)));
        let ghost pos0_debt = pos@.debt;
        proof {
            assert(forall|j: int|
                0 <= j < deltas@.len() ==> unit_delta_valid((#[trigger] deltas@[j]).1));
            assert(deltas@.len() == 1);
            assert(deltas@.drop_last() =~= Seq::<(u64, UnitDelta)>::empty());
            assert(deltas@.last() == (address, UnitDelta::Decrease(units_repaid)));
            assert(spec_apply_deltas_entries(pos0_debt, deltas@.drop_last()) == Ok::<
                Seq<(u64, Dec)>,
                LendError,
            >(pos0_debt));
            assert(spec_apply_deltas_entries(pos0_debt, deltas@) == spec_apply_delta_entries(
                pos0_debt,
                address,
                UnitDelta::Decrease(units_repaid),
            ));
        }
        match pos.update_debt(&deltas) {
            Ok(()) => {},
            Err(e) => {
                return Err(e);
            },
        }
        let ghost old_positions = self.positions@;
        self.assets = staged;
        if pos.supply.is_empty() && pos.debt.is_empty() {
            self.positions.remove(pidx);
            proof {
                lemma_positions_remove(old_positions, pidx as int);
                assert(final(self).wf()) by {
                    assert(forall|j: int|
                        0 <= j < self.positions@.len() ==> self.positions@[j]
                            == old_positions[j as int] || self.positions@[j] == old_positions[j
                            + 1]);
                }
            }
        } else {
            self.positions[pidx] = (position_id, pos);
            proof {
                lemma_positions_update(old_positions, pidx as int, pos);
                assert(final(self).wf()) by {
                    assert(forall|j: int|
                        0 <= j < old_positions.len() && j != pidx ==> self.positions@[j]
                            == old_positions[j]);
                    assert(self.positions@[pidx as int] == (position_id, pos));
                }
            }
        }
        Ok((Dec { raw: amount.raw - cap.raw }, units_repaid))
    }

    /// Closes a position: only one with no holdings and no debts can be
    /// closed; its credential number is retired.
    pub fn close_position(&mut self, position_id: u64) -> (r: Result<(), LendError>)
        requires
            old(self).wf(),
        ensures
            final(self).wf(),
            match spec_close_position(old(self)@, position_id) {
                Ok(mv) => r is Ok && final(self)@ == mv,
                Err(e) => r == Err::<(), LendError>(e) && *final(self) == *old(self),
            },
    {
        proof {
            lemma_positions_contains(self.positions@, position_id);
        }
        let pidx: usize = match Self::find_position(&self.positions, position_id) {
            Some(i) => i,
            None => {
                return Err(LendError::StateViolation);
            },
        };
        proof {
            lemma_positions_index(self.positions@, pidx as int);
        }
        if !self.positions[pidx].1.debt.is_empty() {
            return Err(LendError::StateViolation);
        }
        if !self.positions[pidx].1.supply.is_empty() {
            return Err(LendError::StateViolation);
        }
        let ghost old_positions = self.positions@;
        self.positions.remove(pidx);
        proof {
            lemma_positions_remove(old_positions, pidx as int);
            assert(final(self).wf()) by {
                assert(forall|j: int|
                    0 <= j < self.positions@.len() ==> self.positions@[j] == old_positions[j as int]
                        || self.positions@[j] == old_positions[j + 1]);
            }
        }
        Ok(())
    }

    /// Stops tracking an asset: existing positions keep it, but new
    /// allocations of it are blocked. The asset must currently be listed.
    pub fn untrack_asset(&mut self, address: u64) -> (r: Result<(), LendError>)
        requires
            old(self).wf(),
        ensures
            final(self).wf(),
            (!has_asset(old(self)@.assets, address) || !old(self)@.assets[asset_index(
                old(self)@.assets,
                address,
            )].listed) ==> r == Err::<(), LendError>(LendError::StateViolation) && *final(self)
                == *old(self),
            (has_asset(old(self)@.assets, address) && old(self)@.assets[asset_index(
                old(self)@.assets,
                address,
            )].listed) ==> r is Ok && final(self)@.assets == old(self)@.assets.update(
                asset_index(old(self)@.assets, address),
                AssetEntry {
                    listed: false,
                    ..old(self)@.assets[asset_index(old(self)@.assets, address)]
                },
            ) && final(self)@.positions == old(self)@.positions && final(self)@.position_id == old(
                self,
            )@.position_id,
    {
        match Self::find_asset(&self.assets, address) {
            None => Err(LendError::StateViolation),
            Some(i) => {
                let e = self.assets[i];
                if !e.listed {
                    Err(LendError::StateViolation)
                } else {
                    self.assets[i] = AssetEntry { listed: false, ..e };
                    Ok(())
                }
            },
        }
    }
}


/// Market-level conservation: opening a position with a single supply
/// and at once withdrawing every issued unit, with no interest accrual
/// and the asset's pool at par, pays back exactly the supplied amount,
/// closes the position again, and returns every cluster and every
/// position to exactly its starting content; only the credential
/// counter has advanced.
pub proof fn lemma_market_round_trip(mv: MarketView, a: u64, x: Dec, prices: Map<u64, Dec>, now: i64)
    requires
        assets_wf(mv.assets),
        has_asset(mv.assets, a),
        mv.assets[asset_index(mv.assets, a)].listed,
        ({
            let c = mv.assets[asset_index(mv.assets, a)].cluster;
            &&& c.supply_units == c.virtual_supply
            &&& now == c.apr_ticked
            &&& c.liquidity.raw + x.raw <= MAX_RAW
            &&& c.supply.raw + x.raw <= MAX_RAW
            &&& c.supply_units.raw + x.raw <= MAX_RAW
        }),
        x.valid(),
        x.raw > 0,
        mv.position_id < u64::MAX,
        !mv.positions.contains_key((mv.position_id + 1) as u64),
    ensures
        spec_open_position(mv, seq![(a, x)], now) is Ok,
        ({
            let (mv1, id, units) = spec_open_position(mv, seq![(a, x)], now)->Ok_0;
            &&& units == seq![(a, x)]
            &&& spec_position_withdraw(mv1, id, a, x, Option::None, prices, now) is Ok
            &&& ({
                let (mv2, leftover, amount) = spec_position_withdraw(
                    mv1,
                    id,
                    a,
                    x,
                    Option::None,
                    prices,
                    now,
                )->Ok_0;
                &&& amount == x
                &&& leftover.raw == 0
                &&& mv2.assets =~= mv.assets
                &&& mv2.positions =~= mv.positions
                &&& mv2.position_id == id
            })
        }),
{
    let ai = asset_index(mv.assets, a);
    let c = mv.assets[ai].cluster;
    let xs = seq![(a, x)];

    // The one-element supply batch issues exactly x units at par.
    assert(xs.drop_last() =~= Seq::<(u64, Dec)>::empty());
    assert(spec_supply_all(mv.assets, xs.drop_last(), now) == Ok::<
        (Seq<AssetEntry>, Seq<(u64, Dec)>),
        LendError,
    >((mv.assets, Seq::empty())));
    lemma_par_supply(c, x, now);
    let (c1, u) = spec_supply(c, x, now)->Ok_0;
    let a1 = mv.assets.update(ai, AssetEntry { cluster: c1, ..mv.assets[ai] });
    let units = Seq::<(u64, Dec)>::empty().push((a, x));
    assert(spec_supply_all(mv.assets, xs, now) == Ok::<
        (Seq<AssetEntry>, Seq<(u64, Dec)>),
        LendError,
    >((a1, units)));
    assert(units =~= xs);

    // The issued units become the fresh position's one holding.
    let ds = increases_of(units);
    assert(ds.len() == 1 && ds[0] == (a, UnitDelta::Increase(x)));
    assert(ds.drop_last() =~= Seq::<(u64, UnitDelta)>::empty());
    assert(spec_apply_deltas_entries(Seq::empty(), ds.drop_last()) == Ok::<
        Seq<(u64, Dec)>,
        LendError,
    >(Seq::empty()));
    assert(!has_key(Seq::<(u64, Dec)>::empty(), a));
    let sentries = Seq::<(u64, Dec)>::empty().push((a, x));
    assert(spec_apply_deltas_entries(Seq::empty(), ds) == Ok::<
        Seq<(u64, Dec)>,
        LendError,
    >(sentries));
    let id = (mv.position_id + 1) as u64;
    let (mv1, id1, units1) = spec_open_position(mv, xs, now)->Ok_0;
    assert(id1 == id && units1 == units);

    // The withdraw sees the same asset at the same slot.
    assert(mv1.positions.contains_key(id));
    assert(mv1.positions[id].supply == sentries);
    assert(mv1.positions[id].debt == Seq::<(u64, Dec)>::empty());
    assert(a1[ai].address == a);
    assert(has_asset(a1, a));
    let ai1 = asset_index(a1, a);
    assert(0 <= ai1 < a1.len() && a1[ai1].address == a);
    assert(ai1 == ai);

    // All the issued units redeem for exactly x and restore the cluster.
    lemma_par_withdraw(c1, x, now);
    let (c2, amt) = spec_withdraw(c1, x, now)->Ok_0;
    assert(c2.liquidity == c.liquidity && c2.supply == c.supply && c2.supply_units
        == c.supply_units && c2.virtual_supply == c.virtual_supply);
    assert(c2 == c);

    // The emptied holding drops, the registry returns to its start.
    assert(sentries[0].0 == a);
    assert(has_key(sentries, a));
    let ki = key_index(sentries, a);
    assert(0 <= ki < sentries.len() && sentries[ki].0 == a);
    assert(ki == 0);
    assert(sentries.remove(0) =~= Seq::<(u64, Dec)>::empty());
    let a2 = a1.update(ai, AssetEntry { cluster: c2, ..a1[ai] });
    assert(a2 =~= mv.assets) by {
        assert(AssetEntry { cluster: c2, ..a1[ai] } == mv.assets[ai]);
    }
    assert(mv1.positions.remove(id) =~= mv.positions);
}

} // verus!
