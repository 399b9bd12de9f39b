use crate::dec::{Dec, MAX_RAW};
use crate::error::LendError;
use crate::value_map::{has_key, key_index, lemma_map_of_contains, lemma_map_of_index, ValueMap};
use vstd::prelude::*;

verus! {

/// A signed change to one asset's unit balance.
#[derive(Clone, Copy, Debug, PartialEq, Eq, Structural)]
pub enum UnitDelta {
    /// Add this many units, inserting the entry if absent.
    Increase(Dec),
    /// Remove this many units; the entry must exist and be at least as
    /// large, and is dropped when it reaches exactly zero.
    Decrease(Dec),
}

/// The magnitude of a delta is within the representable range.
pub open spec fn unit_delta_valid(d: UnitDelta) -> bool {
    match d {
        UnitDelta::Increase(x) => x.valid(),
        UnitDelta::Decrease(x) => x.valid(),
    }
}

/// One delta applied to a holdings map. A zero magnitude is rejected; a
/// decrease needs an existing entry (else the state is violated) that is
/// large enough (else the funds are insufficient), and an entry brought to
/// exactly zero is removed, never kept.
pub open spec fn spec_apply_delta(m: Map<u64, Dec>, key: u64, delta: UnitDelta) -> Result<
    Map<u64, Dec>,
    LendError,
> {
    match delta {
        UnitDelta::Increase(d) => {
            if d.raw == 0 {
                Err(LendError::InvalidInput)
            } else if m.contains_key(key) {
                if m[key].raw + d.raw > MAX_RAW {
                    Err(LendError::ArithmeticFailure)
                } else {
                    Ok(m.insert(key, Dec { raw: (m[key].raw + d.raw) as u64 }))
                }
            } else {
                Ok(m.insert(key, d))
            }
        },
        UnitDelta::Decrease(d) => {
            if d.raw == 0 {
                Err(LendError::InvalidInput)
            } else if !m.contains_key(key) {
                Err(LendError::StateViolation)
            } else if m[key].raw < d.raw {
                Err(LendError::InsufficientFunds)
            } else if m[key].raw == d.raw {
                Ok(m.remove(key))
            } else {
                Ok(m.insert(key, Dec { raw: (m[key].raw - d.raw) as u64 }))
            }
        },
    }
}

/// The same delta at the level of the stored entry list: an increase
/// updates the entry in place or appends a new one, a decrease updates in
/// place or removes the entry it empties.
pub open spec fn spec_apply_delta_entries(
    s: Seq<(u64, Dec)>,
    key: u64,
    delta: UnitDelta,
) -> Result<Seq<(u64, Dec)>, LendError> {
    match delta {
        UnitDelta::Increase(d) => {
            if d.raw == 0 {
                Err(LendError::InvalidInput)
            } else if has_key(s, key) {
                let i = key_index(s, key);
                if s[i].1.raw + d.raw > MAX_RAW {
                    Err(LendError::ArithmeticFailure)
                } else {
                    Ok(s.update(i, (key, Dec { raw: (s[i].1.raw + d.raw) as u64 })))
                }
            } else {
                Ok(s.push((key, d)))
            }
        },
        UnitDelta::Decrease(d) => {
            if d.raw == 0 {
                Err(LendError::InvalidInput)
            } else if !has_key(s, key) {
                Err(LendError::StateViolation)
            } else {
                let i = key_index(s, key);
                if s[i].1.raw < d.raw {
                    Err(LendError::InsufficientFunds)
                } else if s[i].1.raw == d.raw {
                    Ok(s.remove(i))
                } else {
                    Ok(s.update(i, (key, Dec { raw: (s[i].1.raw - d.raw) as u64 })))
                }
            }
        },
    }
}

/// A batch of deltas applied left to right to a holdings map; the first
/// failure is the failure of the batch.
pub open spec fn spec_apply_deltas(m: Map<u64, Dec>, ds: Seq<(u64, UnitDelta)>) -> Result<
    Map<u64, Dec>,
    LendError,
>
    decreases ds.len(),
{
    if ds.len() == 0 {
        Ok(m)
    } else {
        match spec_apply_deltas(m, ds.drop_last()) {
            Err(e) => Err(e),
            Ok(m2) => spec_apply_delta(m2, ds.last().0, ds.last().1),
        }
    }
}

/// A batch of deltas applied left to right to an entry list; the first
/// failure is the failure of the batch.
pub open spec fn spec_apply_deltas_entries(s: Seq<(u64, Dec)>, ds: Seq<(u64, UnitDelta)>) -> Result<
    Seq<(u64, Dec)>,
    LendError,
>
    decreases ds.len(),
{
    if ds.len() == 0 {
        Ok(s)
    } else {
        match spec_apply_deltas_entries(s, ds.drop_last()) {
            Err(e) => Err(e),
            Ok(s2) => spec_apply_delta_entries(s2, ds.last().0, ds.last().1),
        }
    }
}

/// A batch that fails on a prefix fails the same way as a whole.
pub proof fn lemma_apply_deltas_err_prefix(m: Map<u64, Dec>, ds: Seq<(u64, UnitDelta)>, i: int)
    requires
        0 <= i <= ds.len(),
        spec_apply_deltas(m, ds.take(i)) is Err,
    ensures
        spec_apply_deltas(m, ds) == spec_apply_deltas(m, ds.take(i)),
    decreases ds.len(),
{
    if i < ds.len() {
        assert(ds.drop_last().take(i) =~= ds.take(i));
        lemma_apply_deltas_err_prefix(m, ds.drop_last(), i);
    } else {
        assert(ds.take(i) =~= ds);
    }
}

/// A batch that fails on a prefix fails the same way as a whole (entry
/// list form).
pub proof fn lemma_apply_deltas_entries_err_prefix(
    s: Seq<(u64, Dec)>,
    ds: Seq<(u64, UnitDelta)>,
    i: int,
)
    requires
        0 <= i <= ds.len(),
        spec_apply_deltas_entries(s, ds.take(i)) is Err,
    ensures
        spec_apply_deltas_entries(s, ds) == spec_apply_deltas_entries(s, ds.take(i)),
    decreases ds.len(),
{
    if i < ds.len() {
        assert(ds.drop_last().take(i) =~= ds.take(i));
        lemma_apply_deltas_entries_err_prefix(s, ds.drop_last(), i);
    } else {
        assert(ds.take(i) =~= ds);
    }
}

/// One account's bookkeeping: supply share units held and debt share
/// units owed, per asset. Entries exist only with a positive balance.
#[derive(Debug)]
pub struct Position {
    pub supply: ValueMap,
    pub debt: ValueMap,
}

/// The mathematical content of a position: the entry lists of its two
/// unit maps (their maps follow by `map_of`).
pub ghost struct PositionView {
    pub supply: Seq<(u64, Dec)>,
    pub debt: Seq<(u64, Dec)>,
}

impl View for Position {
    type V = PositionView;

    open spec fn view(&self) -> PositionView {
        PositionView { supply: self.supply.entries@, debt: self.debt.entries@ }
    }
}

impl Position {
    /// Both maps have unique keys and hold only positive, representable
    /// balances.
    pub open spec fn wf(self) -> bool {
        &&& self.supply.wf()
        &&& self.supply.values_valid()
        &&& self.supply.values_positive()
        &&& self.debt.wf()
        &&& self.debt.values_valid()
        &&& self.debt.values_positive()
    }

    /// A fresh position with no holdings and no debts.
    pub fn new() -> (p: Position)
        ensures
            p.wf(),
            p@.supply == Seq::<(u64, Dec)>::empty(),
            p@.debt == Seq::<(u64, Dec)>::empty(),
    {
        let p = Position { supply: ValueMap::new(), debt: ValueMap::new() };
        proof {
            assert(p@.supply =~= Seq::<(u64, Dec)>::empty());
            assert(p@.debt =~= Seq::<(u64, Dec)>::empty());
        }
        p
    }

    /// Applies a batch of deltas to a copy of `base`; either the whole
    /// batch applies or the first failure is returned and nothing is kept.
    fn apply_deltas(base: &ValueMap, deltas: &Vec<(u64, UnitDelta)>) -> (r: Result<
        ValueMap,
        LendError,
    >)
        requires
            base.wf(),
            base.values_valid(),
            base.values_positive(),
            forall|i: int| 0 <= i < deltas@.len() ==> unit_delta_valid(#[trigger] deltas@[i].1),
        ensures
            match spec_apply_deltas_entries(base.entries@, deltas@) {
                Ok(s) => (r matches Ok(vm) && vm.entries@ == s && vm.wf() && vm.values_valid()
                    && vm.values_positive() && Ok::<Map<u64, Dec>, LendError>(vm.as_map())
                    == spec_apply_deltas(base.as_map(), deltas@)),
                Err(e) => r == Err::<ValueMap, LendError>(e) && spec_apply_deltas(
                    base.as_map(),
                    deltas@,
                ) == Err::<Map<u64, Dec>, LendError>(e),
            },
    {
        let mut m: ValueMap = base.duplicate();
        let n: usize = deltas.len();
        let mut i: usize = 0;
        while i < n
            invariant
                i <= n,
                n == deltas@.len(),
                m.wf(),
                m.values_valid(),
                m.values_positive(),
                forall|j: int| 0 <= j < deltas@.len() ==> unit_delta_valid(
                    #[trigger] deltas@[j].1,
                ),
                spec_apply_deltas(base.as_map(), deltas@.take(i as int)) == Ok::<
                    Map<u64, Dec>,
                    LendError,
                >(m.as_map()),
                spec_apply_deltas_entries(base.entries@, deltas@.take(i as int)) == Ok::<
                    Seq<(u64, Dec)>,
                    LendError,
                >(m.entries@),
            decreases n - i,
        {
            let ghost prefix = deltas@.take(i as int);
            let ghost m_before = m.as_map();
            let ghost s_before = m.entries@;
            let (key, delta) = deltas[i];
            let step_ok: Result<(), LendError> = match delta {
                UnitDelta::Increase(d) => {
                    if d.is_zero() {
                        Err(LendError::InvalidInput)
                    } else {
                        match m.get(key) {
                            Some(cur) => {
                                proof {
                                    lemma_map_of_contains(m.entries@, key);
                                    let ki = key_index(m.entries@, key);
                                    lemma_map_of_index(m.entries@, ki);
                                }
                                match cur.checked_add(d) {
                                    Some(nv) => {
                                        m.insert(key, nv);
                                        Ok(())
                                    },
                                    None => Err(LendError::ArithmeticFailure),
                                }
                            },
                            None => {
                                proof {
                                    lemma_map_of_contains(m.entries@, key);
                                }
                                m.insert(key, d);
                                Ok(())
                            },
                        }
                    }
                },
                UnitDelta::Decrease(d) => {
                    if d.is_zero() {
                        Err(LendError::InvalidInput)
                    } else {
                        match m.get(key) {
                            None => {
                                proof {
                                    lemma_map_of_contains(m.entries@, key);
                                }
                                Err(LendError::StateViolation)
                            },
                            Some(cur) => {
                                proof {
                                    lemma_map_of_contains(m.entries@, key);
                                    let ki = key_index(m.entries@, key);
                                    lemma_map_of_index(m.entries@, ki);
                                }
                                if cur.raw < d.raw {
                                    Err(LendError::InsufficientFunds)
                                } else if cur.raw == d.raw {
                                    m.remove(key);
                                    Ok(())
                                } else {
                                    m.insert(key, Dec { raw: cur.raw - d.raw });
                                    Ok(())
                                }
                            },
                        }
                    }
                },
            };
            match step_ok {
                Ok(()) => {
                    proof {
                        assert(spec_apply_delta(m_before, key, delta) == Ok::<
                            Map<u64, Dec>,
                            LendError,
                        >(m.as_map()));
                        assert(spec_apply_delta_entries(s_before, key, delta) == Ok::<
                            Seq<(u64, Dec)>,
                            LendError,
                        >(m.entries@));
                        assert(deltas@.take(i + 1 as int).drop_last() =~= prefix);
                    }
                },
                Err(e) => {
                    proof {
                        assert(spec_apply_delta(m_before, key, delta) == Err::<
                            Map<u64, Dec>,
                            LendError,
                        >(e));
                        assert(spec_apply_delta_entries(s_before, key, delta) == Err::<
                            Seq<(u64, Dec)>,
                            LendError,
                        >(e));
                        assert(deltas@.take(i + 1 as int).drop_last() =~= prefix);
                        lemma_apply_deltas_err_prefix(base.as_map(), deltas@, i + 1);
                        lemma_apply_deltas_entries_err_prefix(base.entries@, deltas@, i + 1);
                    }
                    return Err(e);
                },
            }
            i = i + 1;
        }
        proof {
            assert(deltas@.take(n as int) =~= deltas@);
        }
        Ok(m)
    }

    /// Folds a batch of supply-unit deltas into the position: positive
    /// deltas add to or create entries, negative deltas shrink existing
    /// entries and drop one that reaches exactly zero. On failure the
    /// position is unchanged.
    pub fn update_supply(&mut self, deltas: &Vec<(u64, UnitDelta)>) -> (r: Result<(), LendError>)
        requires
            old(self).wf(),
            forall|i: int| 0 <= i < deltas@.len() ==> unit_delta_valid(#[trigger] deltas@[i].1),
        ensures
            final(self).wf(),
            final(self).debt == old(self).debt,
            match spec_apply_deltas_entries(old(self)@.supply, deltas@) {
                Ok(s) => r is Ok && final(self)@.supply == s,
                Err(e) => r == Err::<(), LendError>(e) && *final(self) == *old(self),
            },
            match spec_apply_deltas(old(self).supply.as_map(), deltas@) {
                Ok(m) => r is Ok && final(self).supply.as_map() == m,
                Err(e) => r == Err::<(), LendError>(e),
            },
    {
        match Self::apply_deltas(&self.supply, deltas) {
            Ok(vm) => {
                self.supply = vm;
                Ok(())
            },
            Err(e) => Err(e),
        }
    }

    /// Folds a batch of debt-unit deltas into the position, symmetric to
    /// [`Position::update_supply`]. On failure the position is unchanged.
    pub fn update_debt(&mut self, deltas: &Vec<(u64, UnitDelta)>) -> (r: Result<(), LendError>)
        requires
            old(self).wf(),
            forall|i: int| 0 <= i < deltas@.len() ==> unit_delta_valid(#[trigger] deltas@[i].1),
        ensures
            final(self).wf(),
            final(self).supply == old(self).supply,
            match spec_apply_deltas_entries(old(self)@.debt, deltas@) {
                Ok(s) => r is Ok && final(self)@.debt == s,
                Err(e) => r == Err::<(), LendError>(e) && *final(self) == *old(self),
            },
            match spec_apply_deltas(old(self).debt.as_map(), deltas@) {
                Ok(m) => r is Ok && final(self).debt.as_map() == m,
                Err(e) => r == Err::<(), LendError>(e),
            },
    {
        match Self::apply_deltas(&self.debt, deltas) {
            Ok(vm) => {
                self.debt = vm;
                Ok(())
            },
            Err(e) => Err(e),
        }
    }

    /// An independent copy holding the same entries.
    pub fn duplicate(&self) -> (p: Position)
        ensures
            p@ == self@,
            self.wf() ==> p.wf(),
    {
        Position { supply: self.supply.duplicate(), debt: self.debt.duplicate() }
    }
}

} // verus!
