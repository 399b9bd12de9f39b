use vstd::arithmetic::div_mod::{
    lemma_div_by_multiple, lemma_div_is_ordered, lemma_fundamental_div_mod,
    lemma_mod_multiples_basic,
};
use vstd::prelude::*;

verus! {

/// Raw steps per whole unit: the minimum representable increment is
/// `1 / SCALE`, i.e. eight decimal places.
pub const SCALE: u64 = 100_000_000;

/// Largest raw value a [`Dec`] may hold; `MAX_RAW / SCALE` whole units.
pub const MAX_RAW: u64 = 1_000_000_000_000_000_000;

/// Largest whole number representable as a [`Dec`] (`MAX_RAW / SCALE`).
pub const MAX_WHOLE: u64 = 10_000_000_000;

/// Round-half-to-even division: the quotient `p / d` rounded to the nearest
/// integer, with ties going to the even neighbour. This is the single
/// rounding rule applied at every truncation point of the library.
pub open spec fn rhe(p: int, d: int) -> int
    recommends
        0 <= p,
        0 < d,
{
    let q = p / d;
    let r = p % d;
    if 2 * r < d {
        q
    } else if 2 * r > d {
        q + 1
    } else if q % 2 == 0 {
        q
    } else {
        q + 1
    }
}

/// Rounding never loses or gains more than one step: the result lies
/// between the floored quotient and the floored quotient plus one.
pub proof fn lemma_rhe_bounds(p: int, d: int)
    requires
        0 <= p,
        0 < d,
    ensures
        p / d <= rhe(p, d) <= p / d + 1,
{
}

/// An exact multiple of the divisor is returned unrounded.
pub proof fn lemma_rhe_exact(a: int, d: int)
    requires
        0 <= a,
        0 < d,
    ensures
        rhe(a * d, d) == a,
{
    lemma_div_by_multiple(a, d);
    lemma_mod_multiples_basic(a, d);
}

/// Round-half-to-even division is monotone in the dividend.
pub proof fn lemma_rhe_monotone(p1: int, p2: int, d: int)
    requires
        0 <= p1 <= p2,
        0 < d,
    ensures
        rhe(p1, d) <= rhe(p2, d),
{
    lemma_div_is_ordered(p1, p2, d);
    if p1 / d == p2 / d {
        lemma_fundamental_div_mod(p1, d);
        lemma_fundamental_div_mod(p2, d);
        assert(p1 % d <= p2 % d);
    }
}

/// A fixed-point decimal: `raw` counts steps of `1 / SCALE`. All library
/// quantities (amounts, share units, ratios, prices) are non-negative
/// `Dec` values bounded by [`MAX_RAW`].
#[derive(Clone, Copy, Debug, PartialEq, Eq, Structural)]
pub struct Dec {
    pub raw: u64,
}

/// Round-half-to-even division on machine integers, mirroring [`rhe`].
fn rhe_div(p: u128, d: u128) -> (r: u128)
    requires
        0 < d <= u128::MAX / 2,
        p < u128::MAX,
    ensures
        r == rhe(p as int, d as int),
{
    let q: u128 = p / d;
    let rem: u128 = p % d;
    if 2 * rem < d {
        q
    } else if 2 * rem > d {
        q + 1
    } else if q % 2 == 0 {
        q
    } else {
        q + 1
    }
}

impl Dec {
    /// The raw value stays within the representable range.
    pub open spec fn valid(self) -> bool {
        self.raw <= MAX_RAW
    }

    /// The decimal zero.
    pub fn zero() -> (r: Dec)
        ensures
            r.raw == 0,
    {
        Dec { raw: 0 }
    }

    /// The decimal one (one whole unit).
    pub fn one() -> (r: Dec)
        ensures
            r.raw == SCALE,
    {
        Dec { raw: SCALE }
    }

    /// The largest representable decimal.
    pub fn max_value() -> (r: Dec)
        ensures
            r.raw == MAX_RAW,
    {
        Dec { raw: MAX_RAW }
    }

    /// Converts a whole number of units; `None` past the representable range.
    pub fn from_whole(n: u64) -> (r: Option<Dec>)
        ensures
            n <= MAX_WHOLE ==> (r matches Some(d) && d.raw == n * SCALE),
            n > MAX_WHOLE ==> r is None,
    {
        if n <= MAX_WHOLE {
            Some(Dec { raw: n * SCALE })
        } else {
            None
        }
    }

    /// Checked addition; `None` past the representable range.
    pub fn checked_add(self, other: Dec) -> (r: Option<Dec>)
        requires
            self.valid(),
            other.valid(),
        ensures
            r is Some <==> self.raw + other.raw <= MAX_RAW,
            r matches Some(d) ==> d.raw == self.raw + other.raw,
    {
        let s: u64 = self.raw + other.raw;
        if s <= MAX_RAW {
            Some(Dec { raw: s })
        } else {
            None
        }
    }

    /// Checked subtraction; `None` if the result would be negative.
    pub fn checked_sub(self, other: Dec) -> (r: Option<Dec>)
        ensures
            r is Some <==> other.raw <= self.raw,
            r matches Some(d) ==> d.raw == self.raw - other.raw,
    {
        if other.raw <= self.raw {
            Some(Dec { raw: self.raw - other.raw })
        } else {
            None
        }
    }

    /// Checked multiplication with round-half-to-even at the minimum
    /// representable increment; `None` past the representable range.
    pub fn checked_mul(self, other: Dec) -> (r: Option<Dec>)
        requires
            self.valid(),
            other.valid(),
        ensures
            r is Some <==> rhe(self.raw * other.raw, SCALE as int) <= MAX_RAW,
            r matches Some(d) ==> d.raw == rhe(self.raw * other.raw, SCALE as int),
    {
        proof {
            vstd::arithmetic::mul::lemma_mul_upper_bound(
                self.raw as int,
                MAX_RAW as int,
                other.raw as int,
                MAX_RAW as int,
            );
        }
        let p: u128 = (self.raw as u128) * (other.raw as u128);
        let q: u128 = rhe_div(p, SCALE as u128);
        if q <= MAX_RAW as u128 {
            Some(Dec { raw: q as u64 })
        } else {
            None
        }
    }

    /// Checked division with round-half-to-even at the minimum representable
    /// increment; `None` on division by zero or past the representable range.
    pub fn checked_div(self, other: Dec) -> (r: Option<Dec>)
        requires
            self.valid(),
            other.valid(),
        ensures
            other.raw == 0 ==> r is None,
            other.raw > 0 ==> (r is Some <==> rhe(self.raw * SCALE, other.raw as int) <= MAX_RAW),
            other.raw > 0 ==> (r matches Some(d) ==> d.raw == rhe(
                self.raw * SCALE,
                other.raw as int,
            )),
    {
        if other.raw == 0 {
            return None;
        }
        let p: u128 = (self.raw as u128) * (SCALE as u128);
        let q: u128 = rhe_div(p, other.raw as u128);
        if q <= MAX_RAW as u128 {
            Some(Dec { raw: q as u64 })
        } else {
            None
        }
    }

    /// The smaller of the two decimals.
    pub fn min(self, other: Dec) -> (r: Dec)
        ensures
            r.raw == if self.raw <= other.raw {
                self.raw
            } else {
                other.raw
            },
    {
        if self.raw <= other.raw {
            self
        } else {
            other
        }
    }

    /// Whether this decimal is exactly zero.
    pub fn is_zero(self) -> (r: bool)
        ensures
            r <==> self.raw == 0,
    {
        self.raw == 0
    }
}

} // verus!
