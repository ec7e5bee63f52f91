//! What holds of pools and positions whatever operations come.
//!
//! Shares are priced with integer division, so the exact statements hold of
//! pools in which every token has bought the same whole number of shares:
//! pools with a whole multiplier that took no stake since their first
//! slash. Such a pool is called pegged here.

use crate::error::ContractError;
use crate::ledger::total;
use crate::ledger::Ledger;
use crate::math::lemma_mul_div_le;
use crate::math::lemma_mul_div_same;
use crate::math::Decimal;
use crate::math::DECIMAL_FRACTIONAL;
use crate::state::Stake;
use crate::state::Validator;
use vstd::prelude::*;

verus! {

/// The multiplier is the whole number `k`, and the pool has issued `k`
/// shares for every token staked.
pub open spec fn pegged(val: Validator, k: int) -> bool {
    &&& k >= 1
    &&& val.multiplier.atomics == k * DECIMAL_FRACTIONAL
    &&& val.shares_issued == k * val.tokens_issued
}

/// The position holds `k` shares for every token locked.
pub open spec fn in_step(stake: Stake, k: int) -> bool {
    stake.shares == k * stake.locked
}

/// No slash has lowered the value of the pool's shares.
pub open spec fn unslashed(val: Validator) -> bool {
    val.slash_ratio.atomics == DECIMAL_FRACTIONAL
}

/// A slash never raises the ratio, and leaves tokens, shares and
/// multiplier alone.
pub proof fn lemma_slash_lowers_ratio(val: Validator, percentage: Decimal)
    requires
        val.wf(),
        percentage.is_ratio(),
    ensures
        0 <= val.slashed_ratio(percentage) <= val.slash_ratio.atomics,
{
    lemma_mul_div_le(
        val.slash_ratio.atomics as int,
        DECIMAL_FRACTIONAL - percentage.atomics,
        DECIMAL_FRACTIONAL as int,
    );
}

/// Staking and unstaking leave the slash ratio as it is.
pub proof fn lemma_stake_keeps_ratio(stake: Stake, val: Validator, amount: u128)
    ensures
        stake.staked(val, amount) matches Some((_, pool)) ==> pool.slash_ratio == val.slash_ratio,
        stake.unstaked(val, amount) matches Some((_, pool)) ==> pool.slash_ratio
            == val.slash_ratio,
{
}

/// The value of an unslashed pool is what was staked.
pub proof fn lemma_unslashed_value(val: Validator)
    requires
        unslashed(val),
    ensures
        val.value() == val.tokens_issued,
{
    lemma_mul_div_same(val.tokens_issued as int, DECIMAL_FRACTIONAL as int);
}

/// A stake into a pegged pool, unslashed or empty, keeps pool and position
/// pegged.
pub proof fn lemma_stake_keeps_peg(stake: Stake, val: Validator, amount: u128, k: int)
    requires
        pegged(val, k),
        in_step(stake, k),
        unslashed(val) || val.shares_issued == 0,
        stake.staked(val, amount) is Some,
    ensures
        ({
            let (staked, pool) = stake.staked(val, amount)->0;
            pegged(pool, k) && in_step(staked, k)
        }),
{
    let a = amount as int;
    let one = DECIMAL_FRACTIONAL as int;
    let t = val.tokens_issued as int;
    let bought = val.shares_for(amount)->0 as int;
    if val.shares_issued == 0 {
        assert(a * (k * one) == (k * a) * one) by (nonlinear_arith);
        lemma_mul_div_same(k * a, one);
    } else {
        lemma_unslashed_value(val);
        assert(t > 0) by (nonlinear_arith)
            requires
                k * t > 0,
                k >= 1,
                t >= 0,
        ;
        assert(a * (k * t) == (k * a) * t) by (nonlinear_arith);
        lemma_mul_div_same(k * a, t);
    }
    assert(bought == k * a);
    assert(k * t + k * a == k * (t + a)) by (nonlinear_arith);
    assert(k * stake.locked + k * a == k * (stake.locked + a)) by (nonlinear_arith);
}

/// What leaves a pegged pool with `amount` tokens: `k * amount` shares and
/// `amount` locked tokens while the pool is unslashed, and as many locked
/// tokens as shares where `k` is one.
pub proof fn lemma_pegged_unstake(stake: Stake, val: Validator, amount: u128, k: int)
    requires
        stake.held_in(val),
        pegged(val, k),
        in_step(stake, k),
        unslashed(val) || k == 1,
        0 < amount <= stake.value(val),
    ensures
        unslashed(val) ==> stake.shares_to_burn(val, amount) == k * amount,
        unslashed(val) ==> stake.locked_to_return(val, amount) == amount,
        k == 1 ==> stake.locked_to_return(val, amount) == stake.shares_to_burn(val, amount),
{
    stake.lemma_unstake_bounded(val, amount);
    let a = amount as int;
    let t = val.tokens_issued as int;
    let sh = stake.shares as int;
    let lk = stake.locked as int;
    let burn = stake.shares_to_burn(val, amount);
    if unslashed(val) {
        lemma_unslashed_value(val);
        assert(a * (k * t) == (k * a) * t) by (nonlinear_arith);
        lemma_mul_div_same(k * a, t);
        assert(burn == k * a);
        assert(lk * (k * a) == a * (k * lk)) by (nonlinear_arith);
        lemma_mul_div_same(a, sh);
    } else {
        assert(sh == lk) by (nonlinear_arith)
            requires
                sh == k * lk,
                k == 1,
        ;
        assert(lk * burn == burn * sh) by (nonlinear_arith)
            requires
                sh == lk,
        ;
        lemma_mul_div_same(burn, sh);
    }
}

/// An unstake from a pegged pool keeps pool and position pegged, as long as
/// the pool is unslashed or `k` is one.
pub proof fn lemma_unstake_keeps_peg(stake: Stake, val: Validator, amount: u128, k: int)
    requires
        stake.held_in(val),
        pegged(val, k),
        in_step(stake, k),
        unslashed(val) || k == 1,
        stake.unstaked(val, amount) is Some,
    ensures
        ({
            let (rest, pool) = stake.unstaked(val, amount)->0;
            pegged(pool, k) && in_step(rest, k)
        }),
{
    if amount > 0 {
        stake.lemma_unstake_bounded(val, amount);
        lemma_pegged_unstake(stake, val, amount, k);
        let a = amount as int;
        let t = val.tokens_issued as int;
        let lk = stake.locked as int;
        if unslashed(val) {
            assert(k * t - k * a == k * (t - a)) by (nonlinear_arith);
            assert(k * lk - k * a == k * (lk - a)) by (nonlinear_arith);
        } else {
            let burn = stake.shares_to_burn(val, amount);
            assert(k * t - burn == k * (t - burn)) by (nonlinear_arith)
                requires
                    k == 1,
            ;
            assert(k * lk - burn == k * (lk - burn)) by (nonlinear_arith)
                requires
                    k == 1,
            ;
        }
    }
}

/// A position in a pegged pool is never worth more than the tokens locked
/// in it, and while the pool is unslashed it is worth exactly those.
pub proof fn lemma_pegged_value(stake: Stake, val: Validator, k: int)
    requires
        stake.held_in(val),
        pegged(val, k),
        in_step(stake, k),
    ensures
        stake.value(val) <= stake.locked,
        unslashed(val) ==> stake.value(val) == stake.locked,
{
    let t = val.tokens_issued as int;
    let s = val.shares_issued as int;
    let sh = stake.shares as int;
    let lk = stake.locked as int;
    let v = val.value();
    val.lemma_value_bounded();
    if s == 0 {
        assert(lk == 0) by (nonlinear_arith)
            requires
                sh == k * lk,
                sh == 0,
                k >= 1,
                lk >= 0,
        ;
    } else {
        assert(sh * v <= lk * s) by (nonlinear_arith)
            requires
                sh == k * lk,
                s == k * t,
                0 <= v <= t,
                k >= 1,
                lk >= 0,
        ;
        assert(0 <= sh * v) by (nonlinear_arith)
            requires
                0 <= sh,
                0 <= v,
        ;
        vstd::arithmetic::div_mod::lemma_div_is_ordered(sh * v, lk * s, s);
        lemma_mul_div_same(lk, s);
        if unslashed(val) {
            lemma_unslashed_value(val);
            assert(sh * v == lk * s) by (nonlinear_arith)
                requires
                    sh == k * lk,
                    s == k * t,
                    v == t,
            ;
        }
    }
}

/// Staking an amount into a pegged, unslashed pool and unstaking the same
/// amount again leaves pool and position exactly as they were.
pub proof fn lemma_stake_then_unstake(stake: Stake, val: Validator, amount: u128, k: int)
    requires
        stake.held_in(val),
        pegged(val, k),
        in_step(stake, k),
        unslashed(val),
        stake.staked(val, amount) is Some,
    ensures
        ({
            let (staked, pool) = stake.staked(val, amount)->0;
            staked.unstaked(pool, amount) == Some((stake, val))
        }),
{
    let (staked, pool) = stake.staked(val, amount)->0;
    lemma_stake_keeps_peg(stake, val, amount, k);
    assert(staked.held_in(pool));
    lemma_pegged_value(staked, pool, k);
    if amount > 0 {
        lemma_pegged_unstake(staked, pool, amount, k);
        let a = amount as int;
        assert(k * (stake.locked + a) - k * a == k * stake.locked) by (nonlinear_arith);
        assert(k * (val.tokens_issued + a) - k * a == k * val.tokens_issued) by (nonlinear_arith);
    }
}

/// In an unslashed pool that holds shares, taking out the amount just
/// staked burns the shares it bought, or one more where the price did not
/// divide evenly.
pub proof fn lemma_round_trip_dust(stake: Stake, val: Validator, amount: u128)
    requires
        unslashed(val),
        val.shares_issued > 0,
        amount > 0,
        stake.staked(val, amount) is Some,
    ensures
        ({
            let (staked, pool) = stake.staked(val, amount)->0;
            let bought = staked.shares - stake.shares;
            bought <= staked.shares_to_burn(pool, amount) <= bought + 1
        }),
{
    let (staked, pool) = stake.staked(val, amount)->0;
    lemma_unslashed_value(val);
    lemma_unslashed_value(pool);
    let a = amount as int;
    let t = val.tokens_issued as int;
    let s = val.shares_issued as int;
    let bought = staked.shares - stake.shares;
    assert(bought == (a * s) / t);
    vstd::arithmetic::div_mod::lemma_fundamental_div_mod(a * s, t);
    vstd::arithmetic::div_mod::lemma_mod_bound(a * s, t);
    let x = a * (s + bought);
    let y = t + a;
    assert(bought * y <= x < (bought + 1) * y) by (nonlinear_arith)
        requires
            a * s == t * bought + (a * s) % t,
            0 <= (a * s) % t < t,
            x == a * (s + bought),
            y == t + a,
            a > 0,
            bought >= 0,
    ;
    let z = x + y - 1;
    let burn = staked.shares_to_burn(pool, amount);
    assert(burn == z / y);
    vstd::arithmetic::div_mod::lemma_fundamental_div_mod(z, y);
    vstd::arithmetic::div_mod::lemma_mod_bound(z, y);
    assert(bought <= burn <= bought + 1) by (nonlinear_arith)
        requires
            z == y * burn + z % y,
            0 <= z % y < y,
            z == x + y - 1,
            bought * y <= x < (bought + 1) * y,
    ;
}

/// The first stake into an empty, unslashed pool is worth what was staked,
/// whatever the multiplier, as soon as it buys a share.
pub proof fn lemma_first_stake_value(val: Validator, amount: u128)
    requires
        val.tokens_issued == 0,
        val.shares_issued == 0,
        unslashed(val),
        (Stake { shares: 0, locked: 0 }).staked(val, amount) matches Some((staked, _))
            && staked.shares > 0,
    ensures
        ({
            let (staked, pool) = (Stake { shares: 0, locked: 0 }).staked(val, amount)->0;
            staked.value(pool) == amount && staked.locked == amount
        }),
{
    let (staked, pool) = (Stake { shares: 0, locked: 0 }).staked(val, amount)->0;
    lemma_unslashed_value(pool);
    let sh = staked.shares as int;
    assert(sh * (amount as int) == (amount as int) * sh) by (nonlinear_arith);
    lemma_mul_div_same(amount as int, sh);
}

impl Ledger {
    /// The pool under `address` is pegged at `k` shares a token, and so is
    /// every position in it.
    pub open spec fn pegged_at(self, address: Seq<char>, k: int) -> bool {
        &&& self.get_validator(address) matches Some(val) && pegged(val, k)
        &&& forall|d: Seq<char>| #[trigger]
            self.get_stake(d, address) matches Some(stake) ==> in_step(stake, k)
    }

    /// The shares of the positions in a pool add up to the shares the pool
    /// has issued, and every position is backed by its pool.
    pub proof fn lemma_shares_add_up(self, address: Seq<char>)
        requires
            self.wf(),
            self.has_validator(address),
        ensures
            total(self.validators[self.index_of(address)].positions@, false)
                == self.get_validator(address)->0.shares_issued,
            forall|d: Seq<char>| #[trigger]
                self.get_stake(d, address) matches Some(stake) ==> stake.held_in(
                    self.get_validator(address)->0,
                ),
    {
        let i = self.index_of(address);
        let entry = self.validators[i];
        assert(entry.wf());
        assert forall|d: Seq<char>| (#[trigger] self.get_stake(d, address)) is Some implies self.get_stake(
            d,
            address,
        )->0.held_in(self.get_validator(address)->0) by {
            if entry.holds(d) {
                entry.lemma_held(entry.slot(d));
            }
        }
    }

    /// A validator registered with a whole multiplier starts pegged.
    pub proof fn lemma_new_validator_pegged(self, address: Seq<char>, k: int)
        requires
            k >= 1,
            self.get_validator(address) matches Some(val) && val.multiplier.atomics == k
                * DECIMAL_FRACTIONAL && val.tokens_issued == 0 && val.shares_issued == 0,
            forall|d: Seq<char>| self.get_stake(d, address) is None,
        ensures
            self.pegged_at(address, k),
    {
        assert(k * 0 == 0) by (nonlinear_arith);
    }

    /// In a pegged pool no position is worth more than the tokens locked in
    /// it, and while the pool is unslashed every position is worth exactly
    /// those.
    pub proof fn lemma_pegged_positions(self, delegator: Seq<char>, address: Seq<char>, k: int)
        requires
            self.wf(),
            self.pegged_at(address, k),
            self.get_stake(delegator, address) is Some,
        ensures
            ({
                let stake = self.get_stake(delegator, address)->0;
                let val = self.get_validator(address)->0;
                &&& stake.value(val) <= stake.locked
                &&& unslashed(val) ==> stake.value(val) == stake.locked
            }),
    {
        self.lemma_shares_add_up(address);
        let stake = self.get_stake(delegator, address)->0;
        lemma_pegged_value(stake, self.get_validator(address)->0, k);
    }

    /// A stake keeps a pegged pool pegged, as long as the pool is unslashed
    /// or empty when the stake comes.
    pub proof fn lemma_stake_keeps_pegged(
        self,
        then: Ledger,
        failed: Option<ContractError>,
        delegator: Seq<char>,
        address: Seq<char>,
        amount: u128,
        k: int,
    )
        requires
            self.wf(),
            self.pegged_at(address, k),
            unslashed(self.get_validator(address)->0) || self.get_validator(
                address,
            )->0.shares_issued == 0,
            self.stake_added(then, failed, delegator, address, amount),
        ensures
            then.pegged_at(address, k),
    {
        if failed is None {
            let val = self.get_validator(address)->0;
            let stake = self.stake_or_empty(delegator, address);
            if self.get_stake(delegator, address) is None {
                assert(k * 0 == 0) by (nonlinear_arith);
            }
            lemma_stake_keeps_peg(stake, val, amount, k);
            assert forall|d: Seq<char>| (#[trigger] then.get_stake(d, address)) is Some implies in_step(
                then.get_stake(d, address)->0,
                k,
            ) by {
                if d != delegator {
                    assert(then.get_stake(d, address) == self.get_stake(d, address));
                }
            }
        }
    }

    /// An unstake keeps a pegged pool pegged, as long as the pool is
    /// unslashed or pegged at one share a token.
    pub proof fn lemma_unstake_keeps_pegged(
        self,
        then: Ledger,
        failed: Option<ContractError>,
        delegator: Seq<char>,
        address: Seq<char>,
        amount: u128,
        k: int,
    )
        requires
            self.wf(),
            self.pegged_at(address, k),
            unslashed(self.get_validator(address)->0) || k == 1,
            self.stake_removed(then, failed, delegator, address, amount),
        ensures
            then.pegged_at(address, k),
    {
        if failed is None {
            let val = self.get_validator(address)->0;
            let stake = self.get_stake(delegator, address)->0;
            self.lemma_shares_add_up(address);
            lemma_unstake_keeps_peg(stake, val, amount, k);
            assert forall|d: Seq<char>| (#[trigger] then.get_stake(d, address)) is Some implies in_step(
                then.get_stake(d, address)->0,
                k,
            ) by {
                if d != delegator {
                    assert(then.get_stake(d, address) == self.get_stake(d, address));
                }
            }
        }
    }

    /// A slash keeps a pegged pool pegged and never raises its ratio.
    pub proof fn lemma_slash_keeps_pegged(
        self,
        then: Ledger,
        failed: Option<ContractError>,
        address: Seq<char>,
        percentage: Decimal,
        force_unbond: bool,
        k: int,
    )
        requires
            self.wf(),
            self.pegged_at(address, k),
            self.slashed(then, failed, address, percentage, force_unbond),
        ensures
            then.pegged_at(address, k),
            then.get_validator(address)->0.slash_ratio.atomics <= self.get_validator(
                address,
            )->0.slash_ratio.atomics,
    {
        if failed is None {
            self.lemma_shares_add_up(address);
            lemma_slash_lowers_ratio(self.get_validator(address)->0, percentage);
            assert forall|d: Seq<char>| (#[trigger] then.get_stake(d, address)) is Some implies in_step(
                then.get_stake(d, address)->0,
                k,
            ) by {
                assert(then.get_stake(d, address) == self.get_stake(d, address));
            }
        }
    }

    /// What is done to one validator leaves every other pegged pool pegged.
    pub proof fn lemma_others_stay_pegged(
        self,
        then: Ledger,
        delegator: Seq<char>,
        address: Seq<char>,
        other: Seq<char>,
        k: int,
    )
        requires
            self.pegged_at(other, k),
            other != address,
            self.same_but(then, delegator, address) || self.same_but_pool(then, address),
        ensures
            then.pegged_at(other, k),
    {
        assert(then.get_validator(other) == self.get_validator(other));
        assert forall|d: Seq<char>| (#[trigger] then.get_stake(d, other)) is Some implies in_step(
                then.get_stake(d, other)->0,
                k,
            ) by {
            assert(then.get_stake(d, other) == self.get_stake(d, other));
        }
    }

    /// No operation raises a validator's slash ratio: stakes and unstakes
    /// leave every ratio as it is, and a slash lowers one or leaves it.
    pub proof fn lemma_ratio_never_grows(
        self,
        then: Ledger,
        failed: Option<ContractError>,
        delegator: Seq<char>,
        address: Seq<char>,
        amount: u128,
        percentage: Decimal,
        force_unbond: bool,
        any: Seq<char>,
    )
        requires
            self.wf(),
            self.stake_added(then, failed, delegator, address, amount) || self.stake_removed(
                then,
                failed,
                delegator,
                address,
                amount,
            ) || self.slashed(then, failed, address, percentage, force_unbond),
        ensures
            then.get_validator(any) is Some == self.get_validator(any) is Some,
            then.get_validator(any) matches Some(val) ==> val.slash_ratio.atomics
                <= self.get_validator(any)->0.slash_ratio.atomics,
    {
        if failed is None {
            if any == address {
                self.lemma_shares_add_up(address);
                if percentage.is_ratio() {
                    lemma_slash_lowers_ratio(self.get_validator(address)->0, percentage);
                }
            } else {
                assert(then.get_validator(any) == self.get_validator(any));
            }
        }
    }

    /// Staking an amount with a pegged, unslashed validator and unstaking
    /// the same amount again succeeds and leaves every pool and every
    /// position as it was.
    pub proof fn lemma_stake_then_unstake_restores(
        self,
        staked: Ledger,
        then: Ledger,
        failed: Option<ContractError>,
        delegator: Seq<char>,
        address: Seq<char>,
        amount: u128,
        k: int,
    )
        requires
            self.wf(),
            amount > 0,
            self.pegged_at(address, k),
            unslashed(self.get_validator(address)->0),
            self.stake_added(staked, None, delegator, address, amount),
            staked.stake_removed(then, failed, delegator, address, amount),
        ensures
            failed is None,
            then.config == self.config,
            then.addresses() == self.addresses(),
            forall|b: Seq<char>| #[trigger] then.get_validator(b) == self.get_validator(b),
            forall|e: Seq<char>, b: Seq<char>| #[trigger]
                then.get_stake(e, b) == self.get_stake(e, b),
    {
        let val = self.get_validator(address)->0;
        let held = self.stake_or_empty(delegator, address);
        self.lemma_shares_add_up(address);
        if self.get_stake(delegator, address) is None {
            assert(k * 0 == 0) by (nonlinear_arith);
        } else {
            let i = self.index_of(address);
            let entry = self.validators[i];
            assert(entry.wf());
            assert(held.shares > 0);
        }
        lemma_stake_keeps_peg(held, val, amount, k);
        lemma_stake_then_unstake(held, val, amount, k);
        let (grown, pool) = held.staked(val, amount)->0;
        assert(grown.shares > 0) by (nonlinear_arith)
            requires
                grown.shares == k * grown.locked,
                grown.locked >= amount,
                amount > 0,
                k >= 1,
        ;
        assert(staked.get_stake(delegator, address) == Some(grown));
        assert forall|b: Seq<char>| #[trigger] then.get_validator(b) == self.get_validator(b) by {
            if b != address {
                assert(staked.get_validator(b) == self.get_validator(b));
            }
        }
        assert forall|e: Seq<char>, b: Seq<char>| #[trigger]
            then.get_stake(e, b) == self.get_stake(e, b) by {
            if e != delegator || b != address {
                assert(staked.get_stake(e, b) == self.get_stake(e, b));
            }
        }
    }
}

} // verus!
