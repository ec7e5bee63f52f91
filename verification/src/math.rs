//! Fixed-point decimals and the full-precision `a * b / c` on `u128`.

use cosmwasm_std::Uint128;
use vstd::prelude::*;

verus! {

/// Atomic units in one whole: decimals carry 18 fractional digits.
pub const DECIMAL_FRACTIONAL: u128 = 1_000_000_000_000_000_000u128;

/// `a * b / c`, rounded toward zero.
pub open spec fn mul_div(a: int, b: int, c: int) -> int {
    (a * b) / c
}

/// `a * b / c`, rounded up.
pub open spec fn mul_div_ceil(a: int, b: int, c: int) -> int {
    (a * b + c - 1) / c
}

/// `Uint128::checked_multiply_ratio` of cosmwasm-std: the product is formed
/// in 256 bits and divided with flooring. The call fails on a zero
/// denominator and when the quotient does not fit in 128 bits; both are
/// reported here as `None`.
#[verifier::external_body]
pub(crate) fn multiply_ratio(a: u128, numerator: u128, denominator: u128) -> (r: Option<u128>)
    ensures
        denominator == 0 ==> r is None,
        denominator != 0 ==> r == (if mul_div(a as int, numerator as int, denominator as int)
            <= u128::MAX {
            Some(mul_div(a as int, numerator as int, denominator as int) as u128)
        } else {
            None
        }),
{
    match Uint128::new(a).checked_multiply_ratio(numerator, denominator) {
        Ok(value) => Some(value.u128()),
        Err(_) => None,
    }
}

/// `Uint128::checked_mul_ceil` of cosmwasm-std with the fraction
/// `numerator / denominator`: as `multiply_ratio`, but a quotient with a
/// remainder is rounded up. The call fails on a zero denominator and when
/// the rounded quotient does not fit in 128 bits; both are reported here as
/// `None`.
#[verifier::external_body]
pub(crate) fn multiply_ratio_ceil(a: u128, numerator: u128, denominator: u128) -> (r: Option<u128>)
    ensures
        denominator == 0 ==> r is None,
        denominator != 0 ==> r == (if mul_div_ceil(a as int, numerator as int, denominator as int)
            <= u128::MAX {
            Some(mul_div_ceil(a as int, numerator as int, denominator as int) as u128)
        } else {
            None
        }),
{
    match Uint128::new(a).checked_mul_ceil((numerator, denominator)) {
        Ok(value) => Some(value.u128()),
        Err(_) => None,
    }
}

/// A non-negative fixed-point number with 18 fractional digits, held as its
/// count of atomic units.
#[derive(Clone, Copy, Debug, PartialEq, Eq, Structural)]
pub struct Decimal {
    pub atomics: u128,
}

impl Decimal {
    /// The decimal made of `atomics` units of 10^-18.
    pub fn raw(atomics: u128) -> (d: Decimal)
        ensures
            d.atomics == atomics,
    {
        Decimal { atomics }
    }

    pub fn one() -> (d: Decimal)
        ensures
            d.atomics == DECIMAL_FRACTIONAL,
    {
        Decimal { atomics: DECIMAL_FRACTIONAL }
    }

    pub fn zero() -> (d: Decimal)
        ensures
            d.atomics == 0,
    {
        Decimal { atomics: 0 }
    }

    /// `x` hundredths.
    pub fn percent(x: u64) -> (d: Decimal)
        ensures
            d.atomics == x * 10_000_000_000_000_000,
    {
        let x: u128 = x as u128;
        Decimal { atomics: x * 10_000_000_000_000_000u128 }
    }

    pub fn is_zero(&self) -> (z: bool)
        ensures
            z == (self.atomics == 0),
    {
        self.atomics == 0
    }

    pub fn atomics(&self) -> (a: u128)
        ensures
            a == self.atomics,
    {
        self.atomics
    }

    /// Whether the value is at most one.
    pub open spec fn is_ratio(self) -> bool {
        self.atomics <= DECIMAL_FRACTIONAL
    }
}

/// A product scaled by a ratio of at most one does not exceed the factor.
pub proof fn lemma_mul_div_le(a: int, b: int, c: int)
    requires
        0 <= a,
        0 <= b <= c,
        0 < c,
    ensures
        0 <= mul_div(a, b, c) <= a,
{
    assert(0 <= a * b <= a * c) by (nonlinear_arith)
        requires
            0 <= a,
            0 <= b <= c,
    ;
    vstd::arithmetic::div_mod::lemma_div_is_ordered(a * b, a * c, c);
    vstd::arithmetic::div_mod::lemma_div_multiples_vanish(a, c);
    assert(a * c == c * a) by (nonlinear_arith);
    vstd::arithmetic::div_mod::lemma_div_pos_is_pos(a * b, c);
}

/// Scaling by `c / c` changes nothing.
pub proof fn lemma_mul_div_same(a: int, c: int)
    requires
        0 < c,
    ensures
        mul_div(a, c, c) == a,
        mul_div_ceil(a, c, c) == a,
{
    vstd::arithmetic::div_mod::lemma_div_multiples_vanish(a, c);
    assert(a * c == c * a) by (nonlinear_arith);
    vstd::arithmetic::div_mod::lemma_fundamental_div_mod_converse(a * c + c - 1, c, a, c - 1);
}

/// An amount is worth at most `shares` shares, rounding up, exactly when
/// `shares` shares are worth at least the amount, rounding down.
pub proof fn lemma_ceil_floor_duality(amount: int, shares: int, pool: int, value: int)
    requires
        0 <= amount,
        0 <= shares,
        0 < pool,
        0 < value,
    ensures
        (mul_div_ceil(amount, pool, value) <= shares) <==> (amount <= mul_div(
            shares,
            value,
            pool,
        )),
{
    let x = amount * pool;
    let y = shares * value;
    assert(0 <= x && 0 <= y) by (nonlinear_arith)
        requires
            x == amount * pool,
            y == shares * value,
            0 <= amount,
            0 <= shares,
            0 < pool,
            0 < value,
    ;
    // amount <= y / pool  <==>  amount * pool <= y
    vstd::arithmetic::div_mod::lemma_fundamental_div_mod(y, pool);
    vstd::arithmetic::div_mod::lemma_mod_bound(y, pool);
    let q = y / pool;
    assert((amount <= q) <==> (x <= y)) by (nonlinear_arith)
        requires
            y == pool * q + y % pool,
            0 <= y % pool < pool,
            x == amount * pool,
            0 < pool,
    ;
    // (x + value - 1) / value <= shares  <==>  x <= shares * value
    let z = x + value - 1;
    vstd::arithmetic::div_mod::lemma_fundamental_div_mod(z, value);
    vstd::arithmetic::div_mod::lemma_mod_bound(z, value);
    let c = z / value;
    assert((c <= shares) <==> (x <= y)) by (nonlinear_arith)
        requires
            z == value * c + z % value,
            0 <= z % value < value,
            z == x + value - 1,
            y == shares * value,
            0 < value,
    ;
}

} // verus!
