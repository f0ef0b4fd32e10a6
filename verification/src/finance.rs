//! Money and percentage values as fixed-point decimals.
//!
//! `Money` keeps an amount in hundredths of the currency unit (cents), so a
//! value is always "rounded to two fractional digits" by construction.
//! `Percentage` keeps hundredths of a percent, the resolution that
//! `Percentage::of` produces.  The one rounding rule of the crate,
//! round-half-to-even, is `round_half_even`, and `div_round_half_even` is
//! its executable form.

use vstd::prelude::*;

verus! {

use vstd::arithmetic::div_mod::*;

/// Largest amount, in cents, that the planner accepts from its inputs
/// (ten billion currency units).
pub const CENT_LIMIT: i64 = 1_000_000_000_000;

/// Largest magnitude, in cents, that intermediate money arithmetic may reach.
pub const MONEY_ABS_LIMIT: i64 = 1_000_000_000_000_000_000;

/// Largest percentage value, in hundredths of a percent (ten million percent).
pub const PCT_LIMIT: i64 = 1_000_000_000;

/// One hundred percent, in hundredths of a percent.
pub const FULL_PERCENT: i64 = 10_000;

#[derive(Debug, PartialEq, Eq, Hash, Copy, Clone, Structural)]
pub enum Currency {
    RUB,
    USD,
}

/// The quotient `n / d` rounded to the nearest integer, ties to the even
/// integer.  `/` and `%` are Euclidean here, so the definition covers
/// negative `n` as well.
pub open spec fn round_half_even(n: int, d: int) -> int
    recommends
        d >= 1,
{
    let q = n / d;
    let r = n % d;
    if 2 * r < d {
        q
    } else if 2 * r > d {
        q + 1
    } else if q % 2 == 0 {
        q
    } else {
        q + 1
    }
}

/// Rounding commutes with negation: the rule has no bias away from or
/// towards zero.
pub proof fn lemma_round_half_even_neg(n: int, d: int)
    requires
        d >= 1,
    ensures
        round_half_even(-n, d) == -round_half_even(n, d),
{
    let q = n / d;
    let r = n % d;
    lemma_fundamental_div_mod(n, d);
    assert(n == d * q + r);
    if r == 0 {
        assert(-n == (-q) * d + 0) by (nonlinear_arith)
            requires
                n == d * q,
        ;
        lemma_fundamental_div_mod_converse(-n, d, -q, 0);
    } else {
        assert(-n == (-q - 1) * d + (d - r)) by (nonlinear_arith)
            requires
                n == d * q + r,
        ;
        lemma_fundamental_div_mod_converse(-n, d, -q - 1, d - r);
        assert((-n) / d == -q - 1);
        assert((-n) % d == d - r);
        if 2 * r == d {
            let h = q / 2;
            let p = q % 2;
            lemma_fundamental_div_mod(q, 2);
            assert(q == 2 * h + p);
            assert(0 <= p < 2);
            lemma_fundamental_div_mod_converse(-q - 1, 2, -h - 1, 1 - p);
            assert((-q - 1) % 2 == 1 - p);
        }
    }
}

/// If `0 <= n <= d * k` then the rounded quotient lies in `[0, k]`.
pub proof fn lemma_round_half_even_nonneg_range(n: int, d: int, k: int)
    requires
        d >= 1,
        0 <= n,
        n <= d * k,
    ensures
        0 <= round_half_even(n, d),
        round_half_even(n, d) <= k,
{
    lemma_fundamental_div_mod(n, d);
    lemma_div_is_ordered(0, n, d);
    if n == d * k {
        assert(n == k * d + 0) by (nonlinear_arith)
            requires
                n == d * k,
        ;
        lemma_fundamental_div_mod_converse(n, d, k, 0);
    } else {
        lemma_div_is_ordered(n, d * k - 1, d);
        assert((d * k - 1) / d == k - 1) by {
            assert(d * k - 1 == (k - 1) * d + (d - 1)) by (nonlinear_arith);
            lemma_fundamental_div_mod_converse(d * k - 1, d, k - 1, d - 1);
        }
    }
}

/// If `0 <= h <= d` then `|round_half_even(a * h, d)| <= |a|`: an entry of a
/// budget never exceeds the income it is carved from.
pub proof fn lemma_round_half_even_scale_bound(a: int, h: int, d: int)
    requires
        d >= 1,
        0 <= h,
        h <= d,
    ensures
        a >= 0 ==> 0 <= round_half_even(a * h, d) <= a,
        a < 0 ==> a <= round_half_even(a * h, d) <= 0,
{
    if a >= 0 {
        assert(a * h <= a * d) by (nonlinear_arith)
            requires
                a >= 0,
                h <= d,
        ;
        assert(a * d == d * a) by (nonlinear_arith);
        assert(a * h >= 0) by (nonlinear_arith)
            requires
                a >= 0,
                h >= 0,
        ;
        lemma_round_half_even_nonneg_range(a * h, d, a);
    } else {
        assert((-a) * h == -(a * h)) by (nonlinear_arith);
        assert((-a) * h <= (-a) * d) by (nonlinear_arith)
            requires
                a < 0,
                h <= d,
        ;
        assert((-a) * d == d * (-a)) by (nonlinear_arith);
        assert((-a) * h >= 0) by (nonlinear_arith)
            requires
                a < 0,
                h >= 0,
        ;
        lemma_round_half_even_nonneg_range(-(a * h), d, -a);
        lemma_round_half_even_neg(-(a * h), d);
    }
}

/// Executable rounding division: `n / d` to the nearest integer, ties to
/// even.
pub fn div_round_half_even(n: i128, d: i128) -> (q: i128)
    requires
        1 <= d <= 0x1000_0000_0000_0000,
        -0x1000_0000_0000_0000_0000_0000_0000 <= n <= 0x1000_0000_0000_0000_0000_0000_0000,
    ensures
        q == round_half_even(n as int, d as int),
{
    let du: u128 = d as u128;
    let neg: bool = n < 0;
    let m: u128 = if n < 0 {
        (-n) as u128
    } else {
        n as u128
    };
    let q0: u128 = m / du;
    let r: u128 = m % du;
    let rounded: u128 = if 2 * r < du {
        q0
    } else if 2 * r > du {
        q0 + 1
    } else if q0 % 2 == 0 {
        q0
    } else {
        q0 + 1
    };
    proof {
        lemma_fundamental_div_mod(m as int, d as int);
        lemma_div_is_ordered(m as int, 0x1000_0000_0000_0000_0000_0000_0000, d as int);
        assert(rounded == round_half_even(m as int, d as int));
    }
    if neg {
        proof {
            lemma_round_half_even_neg(m as int, d as int);
        }
        -(rounded as i128)
    } else {
        rounded as i128
    }
}

/// An amount of money: a count of hundredths of the currency unit, tagged
/// with its currency.  Keeping whole cents is what "rounded to two decimal
/// places" means here; every constructor that starts from a finer value
/// rounds half-to-even.
#[derive(Debug, PartialEq, Eq, Hash, Copy, Clone, Structural)]
pub struct Money {
    /// The amount in hundredths of the currency unit (cents, kopecks).
    pub value: i64,
    pub currency: Currency,
}

impl Money {
    /// `value` counts hundredths of the currency unit.
    pub fn new(value: i64, currency: Currency) -> (m: Money)
        requires
            -MONEY_ABS_LIMIT <= value <= MONEY_ABS_LIMIT,
        ensures
            m.value == value,
            m.currency == currency,
    {
        Money { value, currency }
    }

    pub fn new_rub(value: i64) -> (m: Money)
        requires
            -MONEY_ABS_LIMIT <= value <= MONEY_ABS_LIMIT,
        ensures
            m.value == value,
            m.currency == Currency::RUB,
    {
        Money::new(value, Currency::RUB)
    }

    /// Rounds an amount given in ten-thousandths of a cent (the unit that
    /// `Percentage::apply_to` yields) to whole cents, half to even.
    pub fn from_fraction(numerator: i128, currency: Currency) -> (m: Money)
        requires
            -0x1000_0000_0000_0000_0000_0000_0000 <= numerator <= 0x1000_0000_0000_0000_0000_0000_0000,
            -MONEY_ABS_LIMIT <= round_half_even(numerator as int, FULL_PERCENT as int) <= MONEY_ABS_LIMIT,
        ensures
            m.value == round_half_even(numerator as int, FULL_PERCENT as int),
            m.currency == currency,
    {
        let cents: i128 = div_round_half_even(numerator, FULL_PERCENT as i128);
        Money { value: cents as i64, currency }
    }

    /// Adds two amounts of one currency.
    pub fn add(self, other: Money) -> (m: Money)
        requires
            self.currency == other.currency,
            -MONEY_ABS_LIMIT <= self.value + other.value <= MONEY_ABS_LIMIT,
        ensures
            m.value == self.value + other.value,
            m.currency == self.currency,
    {
        Money { value: self.value + other.value, currency: self.currency }
    }

    /// Subtracts an amount of the same currency.
    pub fn sub(self, other: Money) -> (m: Money)
        requires
            self.currency == other.currency,
            -MONEY_ABS_LIMIT <= self.value - other.value <= MONEY_ABS_LIMIT,
        ensures
            m.value == self.value - other.value,
            m.currency == self.currency,
    {
        Money { value: self.value - other.value, currency: self.currency }
    }
}

impl Default for Money {
    /// Zero rubles.
    fn default() -> (m: Money)
        ensures
            m.value == 0,
            m.currency == Currency::RUB,
    {
        Money { value: 0, currency: Currency::RUB }
    }
}

/// A percentage, kept in hundredths of a percent: `Percentage::of` rounds to
/// that resolution, so it loses nothing.
#[derive(Debug, PartialEq, Eq, Hash, Copy, Clone, Structural)]
pub struct Percentage {
    /// The value in hundredths of a percent; 100% is `FULL_PERCENT`.
    pub hundredths: i64,
}

impl Percentage {
    /// A percentage from its count of hundredths of a percent.  The range
    /// check keeps every percentage nonnegative and representable.
    pub fn from(hundredths: i64) -> (p: Percentage)
        requires
            0 <= hundredths <= PCT_LIMIT,
        ensures
            p.hundredths == hundredths,
    {
        Percentage { hundredths }
    }

    /// A percentage from a whole number of percent.
    pub fn from_int(d: i64) -> (p: Percentage)
        requires
            0 <= d,
            d * 100 <= PCT_LIMIT,
        ensures
            p.hundredths == d * 100,
    {
        Percentage { hundredths: d * 100 }
    }

    pub fn zero() -> (p: Percentage)
        ensures
            p.hundredths == 0,
    {
        Percentage { hundredths: 0 }
    }

    pub fn one() -> (p: Percentage)
        ensures
            p.hundredths == 100,
    {
        Percentage { hundredths: 100 }
    }

    pub fn quarter() -> (p: Percentage)
        ensures
            p.hundredths == 2_500,
    {
        Percentage { hundredths: 2_500 }
    }

    pub fn half() -> (p: Percentage)
        ensures
            p.hundredths == 5_000,
    {
        Percentage { hundredths: 5_000 }
    }

    pub fn one_hundred() -> (p: Percentage)
        ensures
            p.hundredths == FULL_PERCENT,
    {
        Percentage { hundredths: FULL_PERCENT }
    }

    /// How many percent `part` is of `whole`, both in cents, rounded to two
    /// decimal digits of a percent, half to even.  Undefined for
    /// `whole == 0`; the range premises keep the result representable.
    pub fn of(part: i64, whole: i64) -> (p: Percentage)
        requires
            1 <= whole <= 100_000 * CENT_LIMIT,
            0 <= part <= CENT_LIMIT,
            part * FULL_PERCENT <= whole * PCT_LIMIT,
        ensures
            p.hundredths == round_half_even(part * FULL_PERCENT, whole as int),
    {
        let n: i128 = (part as i128) * (FULL_PERCENT as i128);
        let h: i128 = div_round_half_even(n, whole as i128);
        proof {
            lemma_round_half_even_nonneg_range(
                part * FULL_PERCENT,
                whole as int,
                PCT_LIMIT as int,
            );
            assert(part * FULL_PERCENT <= (whole as int) * (PCT_LIMIT as int)) by (nonlinear_arith)
                requires
                    part * FULL_PERCENT <= whole * PCT_LIMIT,
            ;
        }
        Percentage { hundredths: h as i64 }
    }

    /// Applies the percentage to an amount in cents.  The product is exact:
    /// the result counts ten-thousandths of a cent and is not rounded here.
    pub fn apply_to(&self, amount: i64) -> (r: i128)
        ensures
            r == self.hundredths * amount,
    {
        proof {
            assert((self.hundredths as int) * (amount as int) < 0x8000_0000_0000_0000_0000_0000_0000_0000
                && (self.hundredths as int) * (amount as int)
                    >= -0x8000_0000_0000_0000_0000_0000_0000_0000) by (nonlinear_arith)
                requires
                    -0x8000_0000_0000_0000 <= self.hundredths < 0x8000_0000_0000_0000,
                    -0x8000_0000_0000_0000 <= amount < 0x8000_0000_0000_0000,
            ;
        }
        (self.hundredths as i128) * (amount as i128)
    }

    /// The rounded share this percentage takes of an amount: the
    /// percentage applied and brought back to whole cents, half to even,
    /// in the amount's currency.
    pub fn share_of(&self, amount: Money) -> (m: Money)
        requires
            0 <= self.hundredths <= FULL_PERCENT,
            -CENT_LIMIT <= amount.value <= CENT_LIMIT,
        ensures
            m.value == round_half_even(amount.value * self.hundredths, FULL_PERCENT as int),
            m.currency == amount.currency,
    {
        proof {
            lemma_round_half_even_scale_bound(
                amount.value as int,
                self.hundredths as int,
                FULL_PERCENT as int,
            );
        }
        Money::from_fraction(self.apply_to(amount.value), amount.currency)
    }

    /// The sum of two percentages.
    pub fn add(self, other: Percentage) -> (p: Percentage)
        requires
            -PCT_LIMIT <= self.hundredths + other.hundredths <= PCT_LIMIT,
        ensures
            p.hundredths == self.hundredths + other.hundredths,
    {
        Percentage { hundredths: self.hundredths + other.hundredths }
    }

    /// The difference of two percentages.
    pub fn sub(self, other: Percentage) -> (p: Percentage)
        requires
            -PCT_LIMIT <= self.hundredths - other.hundredths <= PCT_LIMIT,
        ensures
            p.hundredths == self.hundredths - other.hundredths,
    {
        Percentage { hundredths: self.hundredths - other.hundredths }
    }
}

} // verus!
