//! Validator pools and delegator positions, with the share arithmetic that
//! ties them together.

use crate::error::ContractError;
use crate::error::StdError;
use crate::math::lemma_ceil_floor_duality;
use crate::math::lemma_mul_div_le;
use crate::math::mul_div;
use crate::math::mul_div_ceil;
use crate::math::multiply_ratio;
use crate::math::multiply_ratio_ceil;
use crate::math::Decimal;
use crate::math::DECIMAL_FRACTIONAL;
use vstd::prelude::*;

verus! {

/// An address that the host has accepted.
#[derive(Clone, Debug, PartialEq, Eq)]
pub struct Addr {
    pub inner: String,
}

impl View for Addr {
    type V = Seq<char>;

    open spec fn view(&self) -> Seq<char> {
        self.inner@
    }
}

impl Addr {
    /// Takes `s` for an address without asking the host.
    pub fn unchecked(s: String) -> (a: Addr)
        ensures
            a@ == s@,
    {
        Addr { inner: s }
    }

    pub fn as_str(&self) -> (s: &str)
        ensures
            s@ == self@,
    {
        self.inner.as_str()
    }

    pub fn into_string(self) -> (s: String)
        ensures
            s@ == self@,
    {
        self.inner
    }

    pub fn same(&self, other: &Addr) -> (b: bool)
        ensures
            b == (self@ == other@),
    {
        self.inner == other.inner
    }

    pub fn duplicate(&self) -> (a: Addr)
        ensures
            a@ == self@,
    {
        Addr { inner: self.inner.clone() }
    }
}

/// The remote chain whose validators are backed.
#[derive(Clone, Debug, PartialEq, Eq)]
pub struct ConsumerInfo {
    pub connection_id: String,
}

#[derive(Clone, Debug, PartialEq, Eq)]
pub struct Config {
    pub consumer: ConsumerInfo,
    /// Unknown until the slasher has been instantiated and has answered.
    pub slasher: Option<Addr>,
    /// The escrow whose stake claims are accepted.
    pub lockup: Addr,
    /// Seconds between an unstake and the release of its tokens.
    pub unbonding_period: u64,
}

#[derive(Clone, Copy, Debug, PartialEq, Eq, Structural)]
pub enum ValStatus {
    Active,
    Removed,
    Tombstoned,
}

/// A validator's pool of shares.
#[derive(Clone, Copy, Debug, PartialEq, Eq, Structural)]
pub struct Validator {
    /// Shares handed out per token while the pool is empty.
    pub multiplier: Decimal,
    /// Tokens staked and not yet unstaked, before any slashing.
    pub tokens_issued: u128,
    /// Shares outstanding.
    pub shares_issued: u128,
    /// What is left of a token after all slashes so far; starts at one.
    pub slash_ratio: Decimal,
    pub status: ValStatus,
}

/// What one delegator holds in one validator's pool.
#[derive(Clone, Copy, Debug, PartialEq, Eq, Structural)]
pub struct Stake {
    pub shares: u128,
    /// Tokens contributed; slashing never lowers it.
    pub locked: u128,
}

impl Validator {
    pub open spec fn wf(self) -> bool {
        self.slash_ratio.is_ratio()
    }

    /// A pool with nothing staked and nothing slashed.
    pub fn new(multiplier: Decimal) -> (v: Validator)
        ensures
            v == (Validator {
                multiplier,
                tokens_issued: 0,
                shares_issued: 0,
                slash_ratio: Decimal { atomics: DECIMAL_FRACTIONAL },
                status: ValStatus::Active,
            }),
            v.wf(),
    {
        Validator {
            multiplier,
            tokens_issued: 0,
            shares_issued: 0,
            slash_ratio: Decimal::one(),
            status: ValStatus::Active,
        }
    }

    /// The tokens the pool is worth after slashing.
    pub open spec fn value(self) -> int {
        mul_div(
            self.tokens_issued as int,
            self.slash_ratio.atomics as int,
            DECIMAL_FRACTIONAL as int,
        )
    }

    pub proof fn lemma_value_bounded(self)
        requires
            self.wf(),
        ensures
            0 <= self.value() <= self.tokens_issued,
    {
        lemma_mul_div_le(
            self.tokens_issued as int,
            self.slash_ratio.atomics as int,
            DECIMAL_FRACTIONAL as int,
        );
    }

    pub fn stake_value(&self) -> (tokens: u128)
        requires
            self.wf(),
        ensures
            tokens == self.value(),
    {
        proof {
            self.lemma_value_bounded();
        }
        match multiply_ratio(self.tokens_issued, self.slash_ratio.atomics, DECIMAL_FRACTIONAL) {
            Some(tokens) => tokens,
            None => 0,
        }
    }

    /// The shares that `amount` tokens buy: `amount * multiplier` while the
    /// pool is empty, else `amount` divided by the current value of a share.
    /// `None` where a pool with shares is worth nothing, so that no price
    /// exists, or where the count leaves `u128`.
    pub open spec fn shares_for(self, amount: u128) -> Option<u128> {
        let shares = if self.shares_issued == 0 {
            mul_div(amount as int, self.multiplier.atomics as int, DECIMAL_FRACTIONAL as int)
        } else {
            mul_div(amount as int, self.shares_issued as int, self.value())
        };
        if (self.shares_issued != 0 && self.value() == 0) || shares > u128::MAX {
            None
        } else {
            Some(shares as u128)
        }
    }

    pub fn tokens_to_shares(&self, amount: u128) -> (shares: Option<u128>)
        requires
            self.wf(),
        ensures
            shares == self.shares_for(amount),
    {
        if self.shares_issued == 0 {
            multiply_ratio(amount, self.multiplier.atomics, DECIMAL_FRACTIONAL)
        } else {
            let value: u128 = self.stake_value();
            multiply_ratio(amount, self.shares_issued, value)
        }
    }

    /// The slash ratio after a further slash by `percentage`.
    pub open spec fn slashed_ratio(self, percentage: Decimal) -> int {
        mul_div(
            self.slash_ratio.atomics as int,
            DECIMAL_FRACTIONAL - percentage.atomics,
            DECIMAL_FRACTIONAL as int,
        )
    }

    /// Takes `percentage` off the value of every share. The ratio never
    /// grows, and a slash by zero leaves it as it is.
    pub fn slash(&mut self, percentage: Decimal)
        requires
            old(self).wf(),
            percentage.is_ratio(),
        ensures
            final(self).slash_ratio.atomics == old(self).slashed_ratio(percentage),
            final(self).slash_ratio.atomics <= old(self).slash_ratio.atomics,
            percentage.atomics == 0 ==> *final(self) == *old(self),
            final(self).wf(),
            final(self).multiplier == old(self).multiplier,
            final(self).tokens_issued == old(self).tokens_issued,
            final(self).shares_issued == old(self).shares_issued,
            final(self).status == old(self).status,
    {
        let rest: u128 = DECIMAL_FRACTIONAL - percentage.atomics;
        proof {
            lemma_mul_div_le(
                self.slash_ratio.atomics as int,
                rest as int,
                DECIMAL_FRACTIONAL as int,
            );
            if percentage.atomics == 0 {
                crate::math::lemma_mul_div_same(
                    self.slash_ratio.atomics as int,
                    DECIMAL_FRACTIONAL as int,
                );
            }
        }
        match multiply_ratio(self.slash_ratio.atomics, rest, DECIMAL_FRACTIONAL) {
            Some(ratio) => {
                self.slash_ratio = Decimal { atomics: ratio };
            },
            None => {},
        }
    }
}

impl Stake {
    /// Whether the position can be one of `val`'s pool: it holds no more
    /// shares than the pool has issued and no more tokens than were staked.
    pub open spec fn held_in(self, val: Validator) -> bool {
        &&& val.wf()
        &&& self.shares <= val.shares_issued
        &&& self.locked <= val.tokens_issued
    }

    /// The tokens the position is worth now: its part of the pool's value.
    pub open spec fn value(self, val: Validator) -> int {
        if val.shares_issued == 0 {
            0
        } else {
            mul_div(self.shares as int, val.value(), val.shares_issued as int)
        }
    }

    pub proof fn lemma_value_bounded(self, val: Validator)
        requires
            val.wf(),
            self.shares <= val.shares_issued,
        ensures
            0 <= self.value(val) <= val.value() <= val.tokens_issued,
    {
        val.lemma_value_bounded();
        if val.shares_issued != 0 {
            assert(self.shares * val.value() == val.value() * self.shares) by (nonlinear_arith);
            lemma_mul_div_le(val.value(), self.shares as int, val.shares_issued as int);
        }
    }

    pub fn current_value(&self, val: &Validator) -> (tokens: u128)
        requires
            val.wf(),
            self.shares <= val.shares_issued,
        ensures
            tokens == self.value(*val),
    {
        proof {
            self.lemma_value_bounded(*val);
        }
        if val.shares_issued == 0 {
            return 0;
        }
        let value: u128 = val.stake_value();
        match multiply_ratio(self.shares, value, val.shares_issued) {
            Some(tokens) => tokens,
            None => 0,
        }
    }

    /// Position and pool after `amount` tokens are staked, or `None` where
    /// the shares cannot be priced or a total leaves `u128`.
    pub open spec fn staked(self, val: Validator, amount: u128) -> Option<(Stake, Validator)> {
        match val.shares_for(amount) {
            None => None,
            Some(shares) => if val.tokens_issued + amount > u128::MAX || val.shares_issued
                + shares > u128::MAX || self.shares + shares > u128::MAX || self.locked + amount
                > u128::MAX {
                None
            } else {
                Some(
                    (
                        Stake {
                            shares: (self.shares + shares) as u128,
                            locked: (self.locked + amount) as u128,
                        },
                        Validator {
                            tokens_issued: (val.tokens_issued + amount) as u128,
                            shares_issued: (val.shares_issued + shares) as u128,
                            ..val
                        },
                    ),
                )
            },
        }
    }

    /// Adds `amount` tokens to the position and to the pool, and to both the
    /// shares they buy. Fails, changing nothing, where `staked` has no
    /// outcome.
    pub fn stake_validator(&mut self, val: &mut Validator, amount: u128) -> (r: Result<
        (),
        ContractError,
    >)
        requires
            old(val).wf(),
        ensures
            match old(self).staked(*old(val), amount) {
                Some((stake, pool)) => r is Ok && *final(self) == stake && *final(val) == pool,
                None => r matches Err(ContractError::Std(StdError::Overflow)) && *final(self)
                    == *old(self) && *final(val) == *old(val),
            },
            final(val).wf(),
            r is Ok && old(self).held_in(*old(val)) ==> final(self).held_in(*final(val)),
    {
        let shares: u128 = match val.tokens_to_shares(amount) {
            Some(shares) => shares,
            None => { return Err(ContractError::Std(StdError::overflow())); },
        };
        let tokens_issued: u128 = match val.tokens_issued.checked_add(amount) {
            Some(t) => t,
            None => { return Err(ContractError::Std(StdError::overflow())); },
        };
        let shares_issued: u128 = match val.shares_issued.checked_add(shares) {
            Some(s) => s,
            None => { return Err(ContractError::Std(StdError::overflow())); },
        };
        let own_shares: u128 = match self.shares.checked_add(shares) {
            Some(s) => s,
            None => { return Err(ContractError::Std(StdError::overflow())); },
        };
        let locked: u128 = match self.locked.checked_add(amount) {
            Some(l) => l,
            None => { return Err(ContractError::Std(StdError::overflow())); },
        };
        val.tokens_issued = tokens_issued;
        val.shares_issued = shares_issued;
        self.shares = own_shares;
        self.locked = locked;
        Ok(())
    }

    /// The shares that leave the pool when `amount` tokens are unstaked:
    /// the amount divided by the value of a share, rounded up.
    pub open spec fn shares_to_burn(self, val: Validator, amount: u128) -> int {
        if amount == 0 {
            0
        } else {
            mul_div_ceil(amount as int, val.shares_issued as int, val.value())
        }
    }

    /// The part of `locked` that leaves with the burnt shares.
    pub open spec fn locked_to_return(self, val: Validator, amount: u128) -> int {
        if amount == 0 {
            0
        } else {
            mul_div(self.locked as int, self.shares_to_burn(val, amount), self.shares as int)
        }
    }

    /// Position and pool after `amount` tokens are unstaked, or `None`
    /// where the position is worth less than `amount`.
    pub open spec fn unstaked(self, val: Validator, amount: u128) -> Option<(Stake, Validator)> {
        if amount > self.value(val) {
            None
        } else {
            let burn = self.shares_to_burn(val, amount);
            let back = self.locked_to_return(val, amount);
            Some(
                (
                    Stake { shares: (self.shares - burn) as u128, locked: (self.locked - back) as u128 },
                    Validator {
                        tokens_issued: (val.tokens_issued - back) as u128,
                        shares_issued: (val.shares_issued - burn) as u128,
                        ..val
                    },
                ),
            )
        }
    }

    /// What is burnt and returned stays within what the position holds.
    pub proof fn lemma_unstake_bounded(self, val: Validator, amount: u128)
        requires
            val.wf(),
            self.shares <= val.shares_issued,
            amount <= self.value(val),
        ensures
            0 <= self.shares_to_burn(val, amount) <= self.shares,
            0 <= self.locked_to_return(val, amount) <= self.locked,
            amount > 0 ==> val.shares_issued > 0 && val.value() > 0 && self.shares > 0,
            amount > 0 ==> self.shares_to_burn(val, amount) > 0,
    {
        if amount > 0 {
            self.lemma_value_bounded(val);
            lemma_ceil_floor_duality(
                amount as int,
                self.shares as int,
                val.shares_issued as int,
                val.value(),
            );
            let burn = self.shares_to_burn(val, amount);
            lemma_ceil_floor_duality(amount as int, 0, val.shares_issued as int, val.value());
            assert(mul_div(0, val.value(), val.shares_issued as int) == 0) by {
                assert(0 * val.value() == 0);
            }
            assert(burn > 0);
            lemma_mul_div_le(self.locked as int, burn, self.shares as int);
        }
    }

    /// Takes `amount` tokens' worth of shares out of the position and the
    /// pool, and with them the matching part of the locked tokens. Fails,
    /// changing nothing, exactly when the position is worth less than
    /// `amount`.
    pub fn unstake_validator(&mut self, val: &mut Validator, amount: u128) -> (r: Result<
        (),
        ContractError,
    >)
        requires
            old(self).held_in(*old(val)),
        ensures
            match old(self).unstaked(*old(val), amount) {
                Some((stake, pool)) => r is Ok && *final(self) == stake && *final(val) == pool,
                None => r matches Err(ContractError::InsufficientStake) && *final(self) == *old(
                    self,
                ) && *final(val) == *old(val),
            },
            final(self).held_in(*final(val)),
    {
        let worth: u128 = self.current_value(val);
        if amount > worth {
            return Err(ContractError::InsufficientStake);
        }
        if amount == 0 {
            return Ok(());
        }
        proof {
            self.lemma_unstake_bounded(*val, amount);
        }
        let value: u128 = val.stake_value();
        let burn: u128 = match multiply_ratio_ceil(amount, val.shares_issued, value) {
            Some(burn) => burn,
            None => 0,
        };
        let back: u128 = match multiply_ratio(self.locked, burn, self.shares) {
            Some(back) => back,
            None => 0,
        };
        self.shares = self.shares - burn;
        self.locked = self.locked - back;
        val.shares_issued = val.shares_issued - burn;
        val.tokens_issued = val.tokens_issued - back;
        Ok(())
    }
}

} // verus!
