use crate::dec::{lemma_rhe_bounds, lemma_rhe_exact, lemma_rhe_monotone, rhe, Dec, MAX_RAW,
    MAX_WHOLE, SCALE};
use crate::error::LendError;
use vstd::arithmetic::div_mod::{
    lemma_div_is_ordered, lemma_div_multiples_vanish, lemma_div_pos_is_pos,
    lemma_mod_multiples_basic,
};
use vstd::arithmetic::mul::lemma_mul_nonnegative;
use vstd::prelude::*;

verus! {

/// Seconds per year used by the interest model.
pub const YEAR_IN_SECONDS: i64 = 31_622_400;

/// Fixed yearly interest rate charged on debt (10%), as a raw decimal.
pub const APR_DEBT_RAW: u64 = 10_000_000;

/// Fixed yearly interest rate earned by suppliers (5%), as a raw decimal.
pub const APR_SUPPLY_RAW: u64 = 5_000_000;

/// Default minimum elapsed time, in seconds, before a passive (non-forced)
/// accrual re-runs.
pub const DEFAULT_TICK_INTERVAL: i64 = 2;

/// The two share layers of a cluster: supply shares and debt shares.
#[derive(Clone, Copy, Debug, PartialEq, Eq, Structural)]
pub enum ClusterLayer {
    Supply,
    Debt,
}

/// A single-asset interest-bearing reserve. It issues supply share units
/// against deposits, tracks debt share units against borrows, and owns one
/// liquidity balance. All fields are non-negative by construction; checked
/// arithmetic turns any would-be overflow or negative value into an error
/// that leaves the cluster untouched.
#[derive(Clone, Copy, Debug, PartialEq, Eq, Structural)]
pub struct Cluster {
    /// Identifier of the managed asset (immutable).
    pub resource: u64,
    /// Amount of the asset currently held and available to lend.
    pub liquidity: Dec,
    /// Raw value owed to suppliers.
    pub supply: Dec,
    /// Total issued supply share units.
    pub supply_units: Dec,
    /// Interest-accruing base of the supply side.
    pub virtual_supply: Dec,
    /// Raw value owed by borrowers.
    pub debt: Dec,
    /// Total issued debt share units.
    pub debt_units: Dec,
    /// Interest-accruing base of the debt side.
    pub virtual_debt: Dec,
    /// Timestamp (seconds) of the last interest application.
    pub apr_ticked: i64,
    /// Minimum elapsed seconds before a passive accrual re-runs.
    pub interest_tick_interval: i64,
}

/// A read-only snapshot of a cluster, with both ratios precomputed.
#[derive(Clone, Copy, Debug, PartialEq, Eq, Structural)]
pub struct ClusterState {
    pub at: i64,
    pub resource: u64,
    pub liquidity: Dec,
    pub supply: Dec,
    pub supply_units: Dec,
    pub virtual_supply: Dec,
    pub supply_ratio: Dec,
    pub debt: Dec,
    pub debt_units: Dec,
    pub virtual_debt: Dec,
    pub debt_ratio: Dec,
    pub apr_ticked: i64,
}

/// The share units of the given layer.
pub open spec fn spec_layer_units(c: Cluster, layer: ClusterLayer) -> Dec {
    match layer {
        ClusterLayer::Supply => c.supply_units,
        ClusterLayer::Debt => c.debt_units,
    }
}

/// The accrual base of the given layer.
pub open spec fn spec_layer_virtual(c: Cluster, layer: ClusterLayer) -> Dec {
    match layer {
        ClusterLayer::Supply => c.virtual_supply,
        ClusterLayer::Debt => c.virtual_debt,
    }
}

/// The share ratio of a layer, as a raw decimal value: units per unit of
/// accrual base, and exactly one when the base is zero.
pub open spec fn spec_ratio(c: Cluster, layer: ClusterLayer) -> int {
    let units = spec_layer_units(c, layer);
    let virt = spec_layer_virtual(c, layer);
    if virt.raw == 0 {
        SCALE as int
    } else {
        rhe(units.raw * SCALE, virt.raw as int)
    }
}

/// What `get_ratio` returns: the ratio, or an arithmetic failure when it
/// leaves the representable range.
pub open spec fn spec_get_ratio(c: Cluster, layer: ClusterLayer) -> Result<Dec, LendError> {
    if spec_ratio(c, layer) <= MAX_RAW {
        Ok(Dec { raw: spec_ratio(c, layer) as u64 })
    } else {
        Err(LendError::ArithmeticFailure)
    }
}

/// What `get_units` returns: `amount * ratio`, rounded half-to-even at the
/// minimum representable increment.
pub open spec fn spec_units_for(c: Cluster, layer: ClusterLayer, amount: Dec) -> Result<
    Dec,
    LendError,
> {
    if amount.raw == 0 {
        Err(LendError::InvalidInput)
    } else {
        match spec_get_ratio(c, layer) {
            Err(e) => Err(e),
            Ok(ratio) => {
                let u = rhe(amount.raw * ratio.raw, SCALE as int);
                if u <= MAX_RAW {
                    Ok(Dec { raw: u as u64 })
                } else {
                    Err(LendError::ArithmeticFailure)
                }
            },
        }
    }
}

/// What `get_amount` returns: `units / ratio`, rounded half-to-even at the
/// minimum representable increment.
pub open spec fn spec_amount_for(c: Cluster, layer: ClusterLayer, units: Dec) -> Result<
    Dec,
    LendError,
> {
    if units.raw == 0 {
        Err(LendError::InvalidInput)
    } else {
        match spec_get_ratio(c, layer) {
            Err(e) => Err(e),
            Ok(ratio) => {
                if ratio.raw == 0 {
                    Err(LendError::ArithmeticFailure)
                } else {
                    let a = rhe(units.raw * SCALE, ratio.raw as int);
                    if a <= MAX_RAW {
                        Ok(Dec { raw: a as u64 })
                    } else {
                        Err(LendError::ArithmeticFailure)
                    }
                }
            },
        }
    }
}

/// Seconds elapsed since the last accrual; a clock that moved backwards
/// counts as no elapsed time.
pub open spec fn spec_elapsed(c: Cluster, now: i64) -> int {
    if now > c.apr_ticked {
        now - c.apr_ticked
    } else {
        0
    }
}

/// Accrual applies when forced, or when the elapsed time exceeds the
/// cluster's tick interval.
pub open spec fn spec_tick_due(c: Cluster, force: bool, now: i64) -> bool {
    force || spec_elapsed(c, now) > c.interest_tick_interval
}

/// The accrual step: both virtual balances grow by
/// `base * apr * elapsed / year`, each product rounded half-to-even, and
/// the accrual timestamp moves to `now`. Any intermediate value past the
/// representable range is an arithmetic failure.
pub open spec fn spec_apply_accrual(c: Cluster, now: i64) -> Result<Cluster, LendError> {
    let elapsed = spec_elapsed(c, now);
    if elapsed > MAX_WHOLE {
        Err(LendError::ArithmeticFailure)
    } else {
        let dt = rhe(elapsed * SCALE * SCALE, YEAR_IN_SECONDS as int * SCALE);
        if dt > MAX_RAW {
            Err(LendError::ArithmeticFailure)
        } else {
            let xd = rhe(c.virtual_debt.raw * APR_DEBT_RAW, SCALE as int);
            if xd > MAX_RAW {
                Err(LendError::ArithmeticFailure)
            } else {
                let dd = rhe(xd * dt, SCALE as int);
                if dd > MAX_RAW || c.virtual_debt.raw + dd > MAX_RAW {
                    Err(LendError::ArithmeticFailure)
                } else {
                    let xs = rhe(c.virtual_supply.raw * APR_SUPPLY_RAW, SCALE as int);
                    if xs > MAX_RAW {
                        Err(LendError::ArithmeticFailure)
                    } else {
                        let ds = rhe(xs * dt, SCALE as int);
                        if ds > MAX_RAW || c.virtual_supply.raw + ds > MAX_RAW {
                            Err(LendError::ArithmeticFailure)
                        } else {
                            Ok(
                                Cluster {
                                    virtual_debt: Dec { raw: (c.virtual_debt.raw + dd) as u64 },
                                    virtual_supply: Dec {
                                        raw: (c.virtual_supply.raw + ds) as u64,
                                    },
                                    apr_ticked: now,
                                    ..c
                                },
                            )
                        }
                    }
                }
            }
        }
    }
}

/// What `tick_interest` does: apply the accrual step when due, otherwise
/// leave the cluster unchanged.
pub open spec fn spec_ticked(c: Cluster, force: bool, now: i64) -> Result<Cluster, LendError> {
    if spec_tick_due(c, force, now) {
        spec_apply_accrual(c, now)
    } else {
        Ok(c)
    }
}

/// The state of a freshly created cluster for `resource` at time `now`.
pub open spec fn spec_fresh_cluster(resource: u64, now: i64) -> Cluster {
    Cluster {
        resource,
        liquidity: Dec { raw: 0 },
        supply: Dec { raw: 0 },
        supply_units: Dec { raw: 0 },
        virtual_supply: Dec { raw: 0 },
        debt: Dec { raw: 0 },
        debt_units: Dec { raw: 0 },
        virtual_debt: Dec { raw: 0 },
        apr_ticked: now,
        interest_tick_interval: DEFAULT_TICK_INTERVAL,
    }
}

impl Cluster {
    /// All decimal fields are within the representable range and the tick
    /// interval is positive.
    pub open spec fn wf(self) -> bool {
        &&& self.liquidity.valid()
        &&& self.supply.valid()
        &&& self.supply_units.valid()
        &&& self.virtual_supply.valid()
        &&& self.debt.valid()
        &&& self.debt_units.valid()
        &&& self.virtual_debt.valid()
        &&& self.interest_tick_interval > 0
    }

    /// A fresh, empty cluster for `resource`, created at time `now`.
    pub fn instantiate(resource: u64, now: i64) -> (c: Cluster)
        ensures
            c.wf(),
            c.resource == resource,
            c.liquidity.raw == 0,
            c.supply.raw == 0,
            c.supply_units.raw == 0,
            c.virtual_supply.raw == 0,
            c.debt.raw == 0,
            c.debt_units.raw == 0,
            c.virtual_debt.raw == 0,
            c.apr_ticked == now,
            c.interest_tick_interval == DEFAULT_TICK_INTERVAL,
            c == spec_fresh_cluster(resource, now),
    {
        Cluster {
            resource,
            liquidity: Dec::zero(),
            supply: Dec::zero(),
            supply_units: Dec::zero(),
            virtual_supply: Dec::zero(),
            debt: Dec::zero(),
            debt_units: Dec::zero(),
            virtual_debt: Dec::zero(),
            apr_ticked: now,
            interest_tick_interval: DEFAULT_TICK_INTERVAL,
        }
    }

    /// The current ratio of share units to accrual base for the layer;
    /// exactly one when the accrual base is zero.
    pub fn get_ratio(&self, layer: ClusterLayer) -> (r: Result<Dec, LendError>)
        requires
            self.wf(),
        ensures
            r == spec_get_ratio(*self, layer),
            spec_layer_virtual(*self, layer).raw == 0 ==> (r matches Ok(d) && d.raw == SCALE),
            r matches Ok(d) ==> d.valid(),
    {
        let units: Dec = match layer {
            ClusterLayer::Supply => self.supply_units,
            ClusterLayer::Debt => self.debt_units,
        };
        let virt: Dec = match layer {
            ClusterLayer::Supply => self.virtual_supply,
            ClusterLayer::Debt => self.virtual_debt,
        };
        if virt.raw == 0 {
            Ok(Dec::one())
        } else {
            match units.checked_div(virt) {
                Some(d) => Ok(d),
                None => Err(LendError::ArithmeticFailure),
            }
        }
    }

    /// Converts an asset amount to the share units it is worth at the
    /// current ratio. Rejects a zero amount.
    pub fn get_units(&self, layer: ClusterLayer, amount: Dec) -> (r: Result<Dec, LendError>)
        requires
            self.wf(),
            amount.valid(),
        ensures
            r == spec_units_for(*self, layer, amount),
            r matches Ok(u) ==> u.valid(),
    {
        if amount.is_zero() {
            return Err(LendError::InvalidInput);
        }
        let ratio: Dec = match self.get_ratio(layer) {
            Ok(d) => d,
            Err(e) => return Err(e),
        };
        match amount.checked_mul(ratio) {
            Some(u) => Ok(u),
            None => Err(LendError::ArithmeticFailure),
        }
    }

    /// Converts share units to the asset amount they are worth at the
    /// current ratio. Rejects a zero unit count.
    pub fn get_amount(&self, layer: ClusterLayer, unit_amount: Dec) -> (r: Result<Dec, LendError>)
        requires
            self.wf(),
            unit_amount.valid(),
        ensures
            r == spec_amount_for(*self, layer, unit_amount),
            r matches Ok(a) ==> a.valid(),
    {
        if unit_amount.is_zero() {
            return Err(LendError::InvalidInput);
        }
        let ratio: Dec = match self.get_ratio(layer) {
            Ok(d) => d,
            Err(e) => return Err(e),
        };
        match unit_amount.checked_div(ratio) {
            Some(a) => Ok(a),
            None => Err(LendError::ArithmeticFailure),
        }
    }

    /// The accrual step applied to a copy of this cluster.
    fn accrue(&self, now: i64) -> (r: Result<Cluster, LendError>)
        requires
            self.wf(),
        ensures
            r == spec_apply_accrual(*self, now),
            r matches Ok(c) ==> c.wf(),
    {
        let elapsed_wide: i128 = now as i128 - self.apr_ticked as i128;
        if now > self.apr_ticked && elapsed_wide > MAX_WHOLE as i128 {
            return Err(LendError::ArithmeticFailure);
        }
        let elapsed: u64 = if now > self.apr_ticked {
            elapsed_wide as u64
        } else {
            0
        };
        proof {
            assert(elapsed == spec_elapsed(*self, now));
        }
        let e_dec = Dec { raw: elapsed * SCALE };
        let y_dec = Dec { raw: (YEAR_IN_SECONDS as u64) * SCALE };
        let dt: Dec = match e_dec.checked_div(y_dec) {
            Some(d) => d,
            None => return Err(LendError::ArithmeticFailure),
        };
        let xd: Dec = match self.virtual_debt.checked_mul(Dec { raw: APR_DEBT_RAW }) {
            Some(d) => d,
            None => return Err(LendError::ArithmeticFailure),
        };
        let dd: Dec = match xd.checked_mul(dt) {
            Some(d) => d,
            None => return Err(LendError::ArithmeticFailure),
        };
        let new_vd: Dec = match self.virtual_debt.checked_add(dd) {
            Some(d) => d,
            None => return Err(LendError::ArithmeticFailure),
        };
        let xs: Dec = match self.virtual_supply.checked_mul(Dec { raw: APR_SUPPLY_RAW }) {
            Some(d) => d,
            None => return Err(LendError::ArithmeticFailure),
        };
        let ds: Dec = match xs.checked_mul(dt) {
            Some(d) => d,
            None => return Err(LendError::ArithmeticFailure),
        };
        let new_vs: Dec = match self.virtual_supply.checked_add(ds) {
            Some(d) => d,
            None => return Err(LendError::ArithmeticFailure),
        };
        Ok(
            Cluster {
                virtual_debt: new_vd,
                virtual_supply: new_vs,
                apr_ticked: now,
                ..*self
            },
        )
    }

    /// The cluster after `tick_interest(force)` at time `now`, without
    /// mutating this one.
    fn ticked_state(&self, force: bool, now: i64) -> (r: Result<Cluster, LendError>)
        requires
            self.wf(),
        ensures
            r == spec_ticked(*self, force, now),
            r matches Ok(c) ==> c.wf(),
    {
        let elapsed_wide: i128 = now as i128 - self.apr_ticked as i128;
        let due: bool = force || (now > self.apr_ticked && elapsed_wide
            > self.interest_tick_interval as i128);
        if due {
            self.accrue(now)
        } else {
            Ok(*self)
        }
    }

    /// Applies interest to both virtual balances when due (or forced):
    /// each grows by `base * apr * elapsed / year`, and the accrual
    /// timestamp moves to `now`. On failure the cluster is unchanged.
    pub fn tick_interest(&mut self, force: bool, now: i64) -> (r: Result<(), LendError>)
        requires
            old(self).wf(),
        ensures
            final(self).wf(),
            match spec_ticked(*old(self), force, now) {
                Ok(c1) => r is Ok && *final(self) == c1,
                Err(e) => r == Err::<(), LendError>(e) && *final(self) == *old(self),
            },
    {
        match self.ticked_state(force, now) {
            Ok(c1) => {
                *self = c1;
                Ok(())
            },
            Err(e) => Err(e),
        }
    }

    /// Sets the minimum elapsed time between passive accruals; the
    /// interval must be positive.
    pub fn set_interest_tick_interval(&mut self, interval: i64) -> (r: Result<(), LendError>)
        requires
            old(self).wf(),
        ensures
            final(self).wf(),
            interval <= 0 ==> r == Err::<(), LendError>(LendError::InvalidInput) && *final(self)
                == *old(self),
            interval > 0 ==> r is Ok && *final(self) == (Cluster {
                interest_tick_interval: interval,
                ..*old(self)
            }),
    {
        if interval <= 0 {
            return Err(LendError::InvalidInput);
        }
        self.interest_tick_interval = interval;
        Ok(())
    }

    /// Adds liquidity without issuing any shares.
    pub fn provide_liquidity(&mut self, amount: Dec) -> (r: Result<(), LendError>)
        requires
            old(self).wf(),
            amount.valid(),
        ensures
            final(self).wf(),
            amount.raw == 0 ==> r == Err::<(), LendError>(LendError::InvalidInput) && *final(self)
                == *old(self),
            amount.raw > 0 && old(self).liquidity.raw + amount.raw > MAX_RAW ==> r == Err::<
                (),
                LendError,
            >(LendError::ArithmeticFailure) && *final(self) == *old(self),
            amount.raw > 0 && old(self).liquidity.raw + amount.raw <= MAX_RAW ==> r is Ok
                && *final(self) == (Cluster {
                liquidity: Dec { raw: (old(self).liquidity.raw + amount.raw) as u64 },
                ..*old(self)
            }),
    {
        if amount.is_zero() {
            return Err(LendError::InvalidInput);
        }
        match self.liquidity.checked_add(amount) {
            Some(l) => {
                self.liquidity = l;
                Ok(())
            },
            None => Err(LendError::ArithmeticFailure),
        }
    }

    /// Removes liquidity without redeeming any shares; fails when more is
    /// requested than is held.
    pub fn withdraw_liquidity(&mut self, amount: Dec) -> (r: Result<Dec, LendError>)
        requires
            old(self).wf(),
            amount.valid(),
        ensures
            final(self).wf(),
            amount.raw == 0 ==> r == Err::<Dec, LendError>(LendError::InvalidInput) && *final(self)
                == *old(self),
            amount.raw > old(self).liquidity.raw ==> r == Err::<Dec, LendError>(
                LendError::InsufficientFunds,
            ) && *final(self) == *old(self),
            0 < amount.raw <= old(self).liquidity.raw ==> (r matches Ok(a) && a == amount
                && *final(self) == (Cluster {
                liquidity: Dec { raw: (old(self).liquidity.raw - amount.raw) as u64 },
                ..*old(self)
            })),
    {
        if amount.is_zero() {
            return Err(LendError::InvalidInput);
        }
        if amount.raw > self.liquidity.raw {
            return Err(LendError::InsufficientFunds);
        }
        self.liquidity = Dec { raw: self.liquidity.raw - amount.raw };
        Ok(amount)
    }

    /// A snapshot of the cluster at time `now`, with both ratios.
    pub fn get_cluster_state(&self, now: i64) -> (r: Result<ClusterState, LendError>)
        requires
            self.wf(),
        ensures
            match spec_get_ratio(*self, ClusterLayer::Supply) {
                Err(e) => r == Err::<ClusterState, LendError>(e),
                Ok(sr) => match spec_get_ratio(*self, ClusterLayer::Debt) {
                    Err(e) => r == Err::<ClusterState, LendError>(e),
                    Ok(dr) => r matches Ok(st) && st == (ClusterState {
                        at: now,
                        resource: self.resource,
                        liquidity: self.liquidity,
                        supply: self.supply,
                        supply_units: self.supply_units,
                        virtual_supply: self.virtual_supply,
                        supply_ratio: sr,
                        debt: self.debt,
                        debt_units: self.debt_units,
                        virtual_debt: self.virtual_debt,
                        debt_ratio: dr,
                        apr_ticked: self.apr_ticked,
                    }),
                },
            },
    {
        let supply_ratio: Dec = match self.get_ratio(ClusterLayer::Supply) {
            Ok(d) => d,
            Err(e) => return Err(e),
        };
        let debt_ratio: Dec = match self.get_ratio(ClusterLayer::Debt) {
            Ok(d) => d,
            Err(e) => return Err(e),
        };
        Ok(
            ClusterState {
                at: now,
                resource: self.resource,
                liquidity: self.liquidity,
                supply: self.supply,
                supply_units: self.supply_units,
                virtual_supply: self.virtual_supply,
                supply_ratio,
                debt: self.debt,
                debt_units: self.debt_units,
                virtual_debt: self.virtual_debt,
                debt_ratio,
                apr_ticked: self.apr_ticked,
            },
        )
    }
}

/// What `supply` does: force-accrue interest, convert the amount to supply
/// units at the post-accrual ratio, then grow `liquidity`, `supply` and
/// `virtual_supply` by the amount and `supply_units` by the units.
pub open spec fn spec_supply(c: Cluster, amount: Dec, now: i64) -> Result<
    (Cluster, Dec),
    LendError,
> {
    if amount.raw == 0 {
        Err(LendError::InvalidInput)
    } else {
        match spec_ticked(c, true, now) {
            Err(e) => Err(e),
            Ok(c1) => match spec_units_for(c1, ClusterLayer::Supply, amount) {
                Err(e) => Err(e),
                Ok(u) => {
                    if c1.liquidity.raw + amount.raw > MAX_RAW || c1.supply.raw + amount.raw
                        > MAX_RAW || c1.supply_units.raw + u.raw > MAX_RAW
                        || c1.virtual_supply.raw + amount.raw > MAX_RAW {
                        Err(LendError::ArithmeticFailure)
                    } else {
                        Ok(
                            (
                                Cluster {
                                    liquidity: Dec { raw: (c1.liquidity.raw + amount.raw) as u64 },
                                    supply: Dec { raw: (c1.supply.raw + amount.raw) as u64 },
                                    supply_units: Dec { raw: (c1.supply_units.raw + u.raw) as u64 },
                                    virtual_supply: Dec {
                                        raw: (c1.virtual_supply.raw + amount.raw) as u64,
                                    },
                                    ..c1
                                },
                                u,
                            ),
                        )
                    }
                },
            },
        }
    }
}

/// What `withdraw` does: force-accrue interest, convert the units to an
/// amount at the post-accrual ratio, then shrink `liquidity`, `supply` and
/// `virtual_supply` by the amount and `supply_units` by the units. An
/// amount past the held liquidity is an insufficient-funds failure; a field
/// that would become negative is an arithmetic failure.
pub open spec fn spec_withdraw(c: Cluster, units: Dec, now: i64) -> Result<
    (Cluster, Dec),
    LendError,
> {
    if units.raw == 0 {
        Err(LendError::InvalidInput)
    } else {
        match spec_ticked(c, true, now) {
            Err(e) => Err(e),
            Ok(c1) => match spec_amount_for(c1, ClusterLayer::Supply, units) {
                Err(e) => Err(e),
                Ok(a) => {
                    if a.raw > c1.liquidity.raw {
                        Err(LendError::InsufficientFunds)
                    } else if a.raw > c1.supply.raw || units.raw > c1.supply_units.raw || a.raw
                        > c1.virtual_supply.raw {
                        Err(LendError::ArithmeticFailure)
                    } else {
                        Ok(
                            (
                                Cluster {
                                    liquidity: Dec { raw: (c1.liquidity.raw - a.raw) as u64 },
                                    supply: Dec { raw: (c1.supply.raw - a.raw) as u64 },
                                    supply_units: Dec {
                                        raw: (c1.supply_units.raw - units.raw) as u64,
                                    },
                                    virtual_supply: Dec {
                                        raw: (c1.virtual_supply.raw - a.raw) as u64,
                                    },
                                    ..c1
                                },
                                a,
                            ),
                        )
                    }
                },
            },
        }
    }
}

/// What `borrow` does: convert the amount to debt units at the ratio
/// before any mutation, take the amount from liquidity, grow `debt`,
/// `debt_units` and `virtual_debt`, then force-accrue interest.
pub open spec fn spec_borrow(c: Cluster, amount: Dec, now: i64) -> Result<
    (Cluster, (Dec, Dec)),
    LendError,
> {
    if amount.raw == 0 {
        Err(LendError::InvalidInput)
    } else {
        match spec_units_for(c, ClusterLayer::Debt, amount) {
            Err(e) => Err(e),
            Ok(u) => {
                if amount.raw > c.liquidity.raw {
                    Err(LendError::InsufficientFunds)
                } else if c.debt.raw + amount.raw > MAX_RAW || c.debt_units.raw + u.raw > MAX_RAW
                    || c.virtual_debt.raw + amount.raw > MAX_RAW {
                    Err(LendError::ArithmeticFailure)
                } else {
                    let c2 = Cluster {
                        liquidity: Dec { raw: (c.liquidity.raw - amount.raw) as u64 },
                        debt: Dec { raw: (c.debt.raw + amount.raw) as u64 },
                        debt_units: Dec { raw: (c.debt_units.raw + u.raw) as u64 },
                        virtual_debt: Dec { raw: (c.virtual_debt.raw + amount.raw) as u64 },
                        ..c
                    };
                    match spec_ticked(c2, true, now) {
                        Err(e) => Err(e),
                        Ok(c3) => Ok((c3, (amount, u))),
                    }
                }
            },
        }
    }
}

/// What `repay` does: convert the amount to debt units at the ratio before
/// any mutation and return the liquidity. An amount past the raw debt is
/// reclassified: the excess goes to `supply` as yield and both `debt` and
/// `virtual_debt` are zeroed; otherwise both shrink by the amount.
/// `debt_units` shrinks by the units, and a zero unit balance forces
/// `virtual_debt` to exactly zero. Interest accrues afterwards.
pub open spec fn spec_repay(c: Cluster, amount: Dec, now: i64) -> Result<(Cluster, Dec), LendError> {
    if amount.raw == 0 {
        Err(LendError::InvalidInput)
    } else {
        match spec_units_for(c, ClusterLayer::Debt, amount) {
            Err(e) => Err(e),
            Ok(u) => {
                if c.liquidity.raw + amount.raw > MAX_RAW {
                    Err(LendError::ArithmeticFailure)
                } else if amount.raw > c.debt.raw && c.supply.raw + (amount.raw - c.debt.raw)
                    > MAX_RAW {
                    Err(LendError::ArithmeticFailure)
                } else if amount.raw <= c.debt.raw && amount.raw > c.virtual_debt.raw {
                    Err(LendError::ArithmeticFailure)
                } else if u.raw > c.debt_units.raw {
                    Err(LendError::ArithmeticFailure)
                } else {
                    let excess = amount.raw > c.debt.raw;
                    let new_supply = if excess {
                        Dec { raw: (c.supply.raw + (amount.raw - c.debt.raw)) as u64 }
                    } else {
                        c.supply
                    };
                    let new_debt = if excess {
                        Dec { raw: 0 }
                    } else {
                        Dec { raw: (c.debt.raw - amount.raw) as u64 }
                    };
                    let new_units = Dec { raw: (c.debt_units.raw - u.raw) as u64 };
                    let new_vd = if excess || new_units.raw == 0 {
                        Dec { raw: 0 }
                    } else {
                        Dec { raw: (c.virtual_debt.raw - amount.raw) as u64 }
                    };
                    let c2 = Cluster {
                        liquidity: Dec { raw: (c.liquidity.raw + amount.raw) as u64 },
                        supply: new_supply,
                        debt: new_debt,
                        debt_units: new_units,
                        virtual_debt: new_vd,
                        ..c
                    };
                    match spec_ticked(c2, true, now) {
                        Err(e) => Err(e),
                        Ok(c3) => Ok((c3, u)),
                    }
                }
            },
        }
    }
}

impl Cluster {
    /// Supplies `amount` of the asset and returns the supply share units
    /// issued for it. On failure the cluster is unchanged.
    pub fn supply(&mut self, amount: Dec, now: i64) -> (r: Result<Dec, LendError>)
        requires
            old(self).wf(),
            amount.valid(),
        ensures
            final(self).wf(),
            match spec_supply(*old(self), amount, now) {
                Ok(p) => (r matches Ok(u) && u == p.1 && u.valid() && *final(self) == p.0),
                Err(e) => r == Err::<Dec, LendError>(e) && *final(self) == *old(self),
            },
    {
        if amount.is_zero() {
            return Err(LendError::InvalidInput);
        }
        let c1: Cluster = match self.ticked_state(true, now) {
            Ok(c) => c,
            Err(e) => return Err(e),
        };
        let u: Dec = match c1.get_units(ClusterLayer::Supply, amount) {
            Ok(u) => u,
            Err(e) => return Err(e),
        };
        let liquidity: Dec = match c1.liquidity.checked_add(amount) {
            Some(d) => d,
            None => return Err(LendError::ArithmeticFailure),
        };
        let supply: Dec = match c1.supply.checked_add(amount) {
            Some(d) => d,
            None => return Err(LendError::ArithmeticFailure),
        };
        let supply_units: Dec = match c1.supply_units.checked_add(u) {
            Some(d) => d,
            None => return Err(LendError::ArithmeticFailure),
        };
        let virtual_supply: Dec = match c1.virtual_supply.checked_add(amount) {
            Some(d) => d,
            None => return Err(LendError::ArithmeticFailure),
        };
        *self = Cluster { liquidity, supply, supply_units, virtual_supply, ..c1 };
        Ok(u)
    }

    /// Redeems `units` supply share units and returns the asset amount
    /// they are worth. On failure the cluster is unchanged.
    pub fn withdraw(&mut self, units: Dec, now: i64) -> (r: Result<Dec, LendError>)
        requires
            old(self).wf(),
            units.valid(),
        ensures
            final(self).wf(),
            match spec_withdraw(*old(self), units, now) {
                Ok(p) => (r matches Ok(a) && a == p.1 && a.valid() && *final(self) == p.0),
                Err(e) => r == Err::<Dec, LendError>(e) && *final(self) == *old(self),
            },
    {
        if units.is_zero() {
            return Err(LendError::InvalidInput);
        }
        let c1: Cluster = match self.ticked_state(true, now) {
            Ok(c) => c,
            Err(e) => return Err(e),
        };
        let a: Dec = match c1.get_amount(ClusterLayer::Supply, units) {
            Ok(a) => a,
            Err(e) => return Err(e),
        };
        if a.raw > c1.liquidity.raw {
            return Err(LendError::InsufficientFunds);
        }
        if a.raw > c1.supply.raw || units.raw > c1.supply_units.raw || a.raw
            > c1.virtual_supply.raw {
            return Err(LendError::ArithmeticFailure);
        }
        *self = Cluster {
            liquidity: Dec { raw: c1.liquidity.raw - a.raw },
            supply: Dec { raw: c1.supply.raw - a.raw },
            supply_units: Dec { raw: c1.supply_units.raw - units.raw },
            virtual_supply: Dec { raw: c1.virtual_supply.raw - a.raw },
            ..c1
        };
        Ok(a)
    }

    /// Borrows `amount` of the asset against debt share units; returns the
    /// borrowed amount and the debt units recorded for it. On failure the
    /// cluster is unchanged.
    pub fn borrow(&mut self, amount: Dec, now: i64) -> (r: Result<(Dec, Dec), LendError>)
        requires
            old(self).wf(),
            amount.valid(),
        ensures
            final(self).wf(),
            match spec_borrow(*old(self), amount, now) {
                Ok(p) => (r matches Ok(out) && out == p.1 && out.1.valid() && *final(self) == p.0),
                Err(e) => r == Err::<(Dec, Dec), LendError>(e) && *final(self) == *old(self),
            },
    {
        if amount.is_zero() {
            return Err(LendError::InvalidInput);
        }
        let u: Dec = match self.get_units(ClusterLayer::Debt, amount) {
            Ok(u) => u,
            Err(e) => return Err(e),
        };
        if amount.raw > self.liquidity.raw {
            return Err(LendError::InsufficientFunds);
        }
        let debt: Dec = match self.debt.checked_add(amount) {
            Some(d) => d,
            None => return Err(LendError::ArithmeticFailure),
        };
        let debt_units: Dec = match self.debt_units.checked_add(u) {
            Some(d) => d,
            None => return Err(LendError::ArithmeticFailure),
        };
        let virtual_debt: Dec = match self.virtual_debt.checked_add(amount) {
            Some(d) => d,
            None => return Err(LendError::ArithmeticFailure),
        };
        let c2 = Cluster {
            liquidity: Dec { raw: self.liquidity.raw - amount.raw },
            debt,
            debt_units,
            virtual_debt,
            ..*self
        };
        let c3: Cluster = match c2.ticked_state(true, now) {
            Ok(c) => c,
            Err(e) => return Err(e),
        };
        *self = c3;
        Ok((amount, u))
    }

    /// Repays `amount` of the asset against the debt and returns the debt
    /// share units cleared by it. An amount past the raw debt is yield for
    /// the suppliers. On failure the cluster is unchanged.
    pub fn repay(&mut self, amount: Dec, now: i64) -> (r: Result<Dec, LendError>)
        requires
            old(self).wf(),
            amount.valid(),
        ensures
            final(self).wf(),
            match spec_repay(*old(self), amount, now) {
                Ok(p) => (r matches Ok(u) && u == p.1 && u.valid() && *final(self) == p.0),
                Err(e) => r == Err::<Dec, LendError>(e) && *final(self) == *old(self),
            },
    {
        if amount.is_zero() {
            return Err(LendError::InvalidInput);
        }
        let u: Dec = match self.get_units(ClusterLayer::Debt, amount) {
            Ok(u) => u,
            Err(e) => return Err(e),
        };
        let liquidity: Dec = match self.liquidity.checked_add(amount) {
            Some(d) => d,
            None => return Err(LendError::ArithmeticFailure),
        };
        let excess: bool = amount.raw > self.debt.raw;
        if excess && self.supply.raw > MAX_RAW - (amount.raw - self.debt.raw) {
            return Err(LendError::ArithmeticFailure);
        }
        if !excess && amount.raw > self.virtual_debt.raw {
            return Err(LendError::ArithmeticFailure);
        }
        if u.raw > self.debt_units.raw {
            return Err(LendError::ArithmeticFailure);
        }
        let new_supply: Dec = if excess {
            Dec { raw: self.supply.raw + (amount.raw - self.debt.raw) }
        } else {
            self.supply
        };
        let new_debt: Dec = if excess {
            Dec { raw: 0 }
        } else {
            Dec { raw: self.debt.raw - amount.raw }
        };
        let new_units = Dec { raw: self.debt_units.raw - u.raw };
        let new_vd: Dec = if excess || new_units.raw == 0 {
            Dec { raw: 0 }
        } else {
            Dec { raw: self.virtual_debt.raw - amount.raw }
        };
        let c2 = Cluster {
            liquidity,
            supply: new_supply,
            debt: new_debt,
            debt_units: new_units,
            virtual_debt: new_vd,
            ..*self
        };
        let c3: Cluster = match c2.ticked_state(true, now) {
            Ok(c) => c,
            Err(e) => return Err(e),
        };
        *self = c3;
        Ok(u)
    }
}

/// With no elapsed time, a forced accrual changes nothing: the increments
/// round to zero and the timestamp stays where it is.
pub proof fn lemma_tick_zero_elapsed(c: Cluster, now: i64)
    requires
        c.wf(),
        now == c.apr_ticked,
    ensures
        spec_ticked(c, true, now) == Ok::<Cluster, LendError>(c),
{
    let ys = YEAR_IN_SECONDS as int * SCALE;
    assert(rhe(0, ys) == 0);
    let xd = rhe(c.virtual_debt.raw * APR_DEBT_RAW, SCALE as int);
    let xs = rhe(c.virtual_supply.raw * APR_SUPPLY_RAW, SCALE as int);
    lemma_rhe_bounds(c.virtual_debt.raw * APR_DEBT_RAW, SCALE as int);
    lemma_rhe_bounds(c.virtual_supply.raw * APR_SUPPLY_RAW, SCALE as int);
    assert(rhe(xd * 0, SCALE as int) == 0);
    assert(rhe(xs * 0, SCALE as int) == 0);
}

/// In a par state (share units equal to the accrual base) the ratio is
/// exactly one.
pub proof fn lemma_ratio_one(c: Cluster, layer: ClusterLayer)
    requires
        c.wf(),
        spec_layer_units(c, layer) == spec_layer_virtual(c, layer),
    ensures
        spec_ratio(c, layer) == SCALE,
{
    let v = spec_layer_virtual(c, layer).raw;
    if v != 0 {
        lemma_div_multiples_vanish(SCALE as int, v as int);
        lemma_mod_multiples_basic(SCALE as int, v as int);
        assert(spec_layer_units(c, layer).raw * SCALE == (v as int) * (SCALE as int));
    }
}

/// Conservation, supply half: with no interest accrual and a par pool,
/// supplying `x` issues exactly `x` units, adds exactly `x` liquidity, and
/// keeps the pool at par.
pub proof fn lemma_par_supply(c: Cluster, x: Dec, now: i64)
    requires
        c.wf(),
        x.valid(),
        x.raw > 0,
        c.supply_units == c.virtual_supply,
        now == c.apr_ticked,
        c.liquidity.raw + x.raw <= MAX_RAW,
        c.supply.raw + x.raw <= MAX_RAW,
        c.supply_units.raw + x.raw <= MAX_RAW,
    ensures
        spec_supply(c, x, now) is Ok,
        ({
            let (c1, u) = spec_supply(c, x, now)->Ok_0;
            &&& u == x
            &&& c1.supply_units == c1.virtual_supply
            &&& c1.liquidity.raw == c.liquidity.raw + x.raw
            &&& c1.supply.raw == c.supply.raw + x.raw
            &&& c1.supply_units.raw == c.supply_units.raw + x.raw
            &&& c1.apr_ticked == c.apr_ticked
            &&& c1.debt == c.debt && c1.debt_units == c.debt_units && c1.virtual_debt
                == c.virtual_debt
            &&& c1.resource == c.resource && c1.interest_tick_interval
                == c.interest_tick_interval
            &&& c1.wf()
        }),
{
    lemma_tick_zero_elapsed(c, now);
    lemma_ratio_one(c, ClusterLayer::Supply);
    lemma_rhe_exact(x.raw as int, SCALE as int);
}

/// Conservation, withdraw half: with no interest accrual and a par pool,
/// redeeming `u` units pays out exactly `u`, removes exactly `u`
/// liquidity, and keeps the pool at par.
pub proof fn lemma_par_withdraw(c: Cluster, u: Dec, now: i64)
    requires
        c.wf(),
        u.valid(),
        u.raw > 0,
        c.supply_units == c.virtual_supply,
        now == c.apr_ticked,
        u.raw <= c.liquidity.raw,
        u.raw <= c.supply.raw,
        u.raw <= c.supply_units.raw,
    ensures
        spec_withdraw(c, u, now) is Ok,
        ({
            let (c2, a) = spec_withdraw(c, u, now)->Ok_0;
            &&& a == u
            &&& c2.supply_units == c2.virtual_supply
            &&& c2.liquidity.raw == c.liquidity.raw - u.raw
            &&& c2.supply.raw == c.supply.raw - u.raw
            &&& c2.supply_units.raw == c.supply_units.raw - u.raw
            &&& c2.apr_ticked == c.apr_ticked
            &&& c2.debt == c.debt && c2.debt_units == c.debt_units && c2.virtual_debt
                == c.virtual_debt
            &&& c2.resource == c.resource && c2.interest_tick_interval
                == c.interest_tick_interval
            &&& c2.wf()
        }),
{
    lemma_tick_zero_elapsed(c, now);
    lemma_ratio_one(c, ClusterLayer::Supply);
    lemma_rhe_exact(u.raw as int, SCALE as int);
}

/// Conservation: with no interest accrual (zero elapsed time) a pool at
/// par converts amounts to units and back without loss or gain, so a
/// supply of `x` followed by a withdraw of the issued units returns
/// exactly `x` and restores every pool field. Round trips can therefore
/// never lift `liquidity` above what was deposited.
pub proof fn lemma_conservation_round_trip(c: Cluster, x: Dec, now: i64)
    requires
        c.wf(),
        x.valid(),
        x.raw > 0,
        c.supply_units == c.virtual_supply,
        now == c.apr_ticked,
        c.liquidity.raw + x.raw <= MAX_RAW,
        c.supply.raw + x.raw <= MAX_RAW,
        c.supply_units.raw + x.raw <= MAX_RAW,
    ensures
        spec_supply(c, x, now) is Ok,
        ({
            let (c1, u) = spec_supply(c, x, now)->Ok_0;
            &&& u == x
            &&& spec_withdraw(c1, u, now) is Ok
            &&& ({
                let (c2, a) = spec_withdraw(c1, u, now)->Ok_0;
                &&& a == x
                &&& c2 == c
            })
        }),
{
    lemma_par_supply(c, x, now);
    let (c1, u) = spec_supply(c, x, now)->Ok_0;
    lemma_par_withdraw(c1, u, now);
}

/// Conservation at the conversion level: with the pool at par, units
/// issued for an amount convert back to exactly that amount — the round
/// trip never creates value.
pub proof fn lemma_conversion_round_trip(c: Cluster, x: Dec)
    requires
        c.wf(),
        x.valid(),
        x.raw > 0,
        c.supply_units == c.virtual_supply,
    ensures
        spec_units_for(c, ClusterLayer::Supply, x) == Ok::<Dec, LendError>(x),
        spec_amount_for(c, ClusterLayer::Supply, x) == Ok::<Dec, LendError>(x),
        spec_amount_for(c, ClusterLayer::Supply, x)->Ok_0.raw <= x.raw,
{
    lemma_ratio_one(c, ClusterLayer::Supply);
    lemma_rhe_exact(x.raw as int, SCALE as int);
}

/// Repeated supply/withdraw round trips, applied left to right; each
/// supplies an amount and immediately redeems the units it was issued.
pub open spec fn spec_round_trips(c: Cluster, xs: Seq<Dec>, now: i64) -> Result<Cluster, LendError>
    decreases xs.len(),
{
    if xs.len() == 0 {
        Ok(c)
    } else {
        match spec_round_trips(c, xs.drop_last(), now) {
            Err(e) => Err(e),
            Ok(c1) => match spec_supply(c1, xs.last(), now) {
                Err(e) => Err(e),
                Ok(p) => match spec_withdraw(p.0, p.1, now) {
                    Err(e) => Err(e),
                    Ok(q) => Ok(q.0),
                },
            },
        }
    }
}

/// Conservation over any sequence of supply/withdraw pairs with no
/// interest accrual: every round trip returns the pool to exactly its
/// starting state, so repeated round trips can never lift `liquidity`
/// beyond what was deposited.
pub proof fn lemma_conservation_sequence(c: Cluster, xs: Seq<Dec>, now: i64)
    requires
        c.wf(),
        c.supply_units == c.virtual_supply,
        now == c.apr_ticked,
        forall|i: int|
            0 <= i < xs.len() ==> (#[trigger] xs[i]).valid() && xs[i].raw > 0 && c.liquidity.raw
                + xs[i].raw <= MAX_RAW && c.supply.raw + xs[i].raw <= MAX_RAW
                && c.supply_units.raw + xs[i].raw <= MAX_RAW,
    ensures
        spec_round_trips(c, xs, now) == Ok::<Cluster, LendError>(c),
    decreases xs.len(),
{
    if xs.len() > 0 {
        assert(forall|i: int| 0 <= i < xs.len() - 1 ==> xs.drop_last()[i] == xs[i]);
        lemma_conservation_sequence(c, xs.drop_last(), now);
        lemma_conservation_round_trip(c, xs.last(), now);
    }
}

/// The accounting identity: every share operation moves liquidity, raw
/// supply and raw debt together, so `liquidity + debt - supply` is the
/// same before and after any successful supply, withdraw, borrow or
/// repay (interest accrual touches only the virtual balances).
pub proof fn lemma_accounting_identity(c: Cluster, x: Dec, now: i64)
    requires
        c.wf(),
        x.valid(),
    ensures
        spec_supply(c, x, now) matches Ok(p) ==> p.0.liquidity.raw + p.0.debt.raw - p.0.supply.raw
            == c.liquidity.raw + c.debt.raw - c.supply.raw,
        spec_withdraw(c, x, now) matches Ok(p) ==> p.0.liquidity.raw + p.0.debt.raw
            - p.0.supply.raw == c.liquidity.raw + c.debt.raw - c.supply.raw,
        spec_borrow(c, x, now) matches Ok(p) ==> p.0.liquidity.raw + p.0.debt.raw - p.0.supply.raw
            == c.liquidity.raw + c.debt.raw - c.supply.raw,
        spec_repay(c, x, now) matches Ok(p) ==> p.0.liquidity.raw + p.0.debt.raw - p.0.supply.raw
            == c.liquidity.raw + c.debt.raw - c.supply.raw,
{
}

/// Interest monotonicity, weak half: a tick never decreases either
/// accrual base, whatever the elapsed time.
pub proof fn lemma_tick_interest_never_decreases(c: Cluster, force: bool, now: i64)
    requires
        c.wf(),
    ensures
        spec_ticked(c, force, now) matches Ok(c1) ==> c1.virtual_supply.raw
            >= c.virtual_supply.raw && c1.virtual_debt.raw >= c.virtual_debt.raw,
{
    if spec_tick_due(c, force, now) && spec_ticked(c, force, now) is Ok {
        let elapsed = spec_elapsed(c, now);
        let ys = YEAR_IN_SECONDS as int * SCALE;
        let dt = rhe(elapsed * SCALE * SCALE, ys);
        lemma_rhe_bounds(elapsed * SCALE * SCALE, ys);
        lemma_div_pos_is_pos(elapsed * SCALE * SCALE, ys);
        let xd = rhe(c.virtual_debt.raw * APR_DEBT_RAW, SCALE as int);
        let xs = rhe(c.virtual_supply.raw * APR_SUPPLY_RAW, SCALE as int);
        lemma_rhe_bounds(c.virtual_debt.raw * APR_DEBT_RAW, SCALE as int);
        lemma_rhe_bounds(c.virtual_supply.raw * APR_SUPPLY_RAW, SCALE as int);
        lemma_div_pos_is_pos(c.virtual_debt.raw * APR_DEBT_RAW, SCALE as int);
        lemma_div_pos_is_pos(c.virtual_supply.raw * APR_SUPPLY_RAW, SCALE as int);
        lemma_mul_nonnegative(xd, dt);
        lemma_mul_nonnegative(xs, dt);
        lemma_rhe_bounds(xd * dt, SCALE as int);
        lemma_rhe_bounds(xs * dt, SCALE as int);
        lemma_div_pos_is_pos(xd * dt, SCALE as int);
        lemma_div_pos_is_pos(xs * dt, SCALE as int);
    }
}

/// Interest monotonicity, strict half: when at least one second has
/// elapsed and both accrual bases hold at least one hundred whole units, a
/// successful forced tick strictly increases both. (For much smaller
/// bases or shorter times the increment can round to zero.)
pub proof fn lemma_tick_interest_strictly_increases(c: Cluster, now: i64)
    requires
        c.wf(),
        now - c.apr_ticked >= 1,
        c.virtual_debt.raw >= 100 * SCALE,
        c.virtual_supply.raw >= 100 * SCALE,
        spec_ticked(c, true, now) is Ok,
    ensures
        spec_ticked(c, true, now)->Ok_0.virtual_debt.raw > c.virtual_debt.raw,
        spec_ticked(c, true, now)->Ok_0.virtual_supply.raw > c.virtual_supply.raw,
{
    let elapsed = spec_elapsed(c, now);
    assert(elapsed >= 1);
    let ys = YEAR_IN_SECONDS as int * SCALE;
    let dt = rhe(elapsed * SCALE * SCALE, ys);
    assert(dt >= 3) by {
        lemma_rhe_monotone(SCALE as int * SCALE, elapsed * SCALE * SCALE, ys);
        lemma_rhe_bounds(SCALE as int * SCALE, ys);
        assert(SCALE as int * SCALE / ys == 3);
    }
    let xd = rhe(c.virtual_debt.raw * APR_DEBT_RAW, SCALE as int);
    assert(xd >= 1_000_000_000) by {
        lemma_rhe_bounds(c.virtual_debt.raw * APR_DEBT_RAW, SCALE as int);
        lemma_div_is_ordered(
            100_000_000_000_000_000,
            c.virtual_debt.raw * APR_DEBT_RAW,
            SCALE as int,
        );
    }
    let xs = rhe(c.virtual_supply.raw * APR_SUPPLY_RAW, SCALE as int);
    assert(xs >= 500_000_000) by {
        lemma_rhe_bounds(c.virtual_supply.raw * APR_SUPPLY_RAW, SCALE as int);
        lemma_div_is_ordered(
            50_000_000_000_000_000,
            c.virtual_supply.raw * APR_SUPPLY_RAW,
            SCALE as int,
        );
    }
    assert(xd * dt >= 3_000_000_000) by (nonlinear_arith)
        requires
            xd >= 1_000_000_000,
            dt >= 3,
    ;
    assert(xs * dt >= 1_500_000_000) by (nonlinear_arith)
        requires
            xs >= 500_000_000,
            dt >= 3,
    ;
    assert(rhe(xd * dt, SCALE as int) >= 1) by {
        lemma_rhe_bounds(xd * dt, SCALE as int);
        lemma_div_is_ordered(3_000_000_000, xd * dt, SCALE as int);
    }
    assert(rhe(xs * dt, SCALE as int) >= 1) by {
        lemma_rhe_bounds(xs * dt, SCALE as int);
        lemma_div_is_ordered(1_500_000_000, xs * dt, SCALE as int);
    }
}

} // verus!
