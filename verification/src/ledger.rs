//! The ledger: every validator's pool with the positions held in it,
//! validators in ascending order of their address.

use crate::error::ContractError;
use crate::error::StdError;
use crate::math::Decimal;
use crate::order::comes_before;
use crate::order::lemma_str_precedes_transitive;
use crate::order::lemma_str_trichotomy;
use crate::order::same;
use crate::order::str_precedes;
use crate::state::Addr;
use crate::state::Config;
use crate::state::Stake;
use crate::state::ValStatus;
use crate::state::Validator;
use vstd::prelude::*;

verus! {

/// One delegator's stake in a validator's pool.
#[derive(Clone, Debug, PartialEq, Eq)]
pub struct Position {
    pub delegator: Addr,
    pub stake: Stake,
}

/// A validator with the positions held in its pool.
#[derive(Clone, Debug, PartialEq, Eq)]
pub struct ValidatorEntry {
    pub address: String,
    pub validator: Validator,
    pub positions: Vec<Position>,
}

#[derive(Clone, Debug, PartialEq, Eq)]
pub struct Ledger {
    pub config: Config,
    pub validators: Vec<ValidatorEntry>,
}

/// The shares of a position, or its locked tokens.
pub open spec fn part(p: Position, locked: bool) -> int {
    if locked {
        p.stake.locked as int
    } else {
        p.stake.shares as int
    }
}

/// The shares of all positions added up, or their locked tokens.
pub open spec fn total(ps: Seq<Position>, locked: bool) -> int
    decreases ps.len(),
{
    if ps.len() == 0 {
        0
    } else {
        total(ps.drop_last(), locked) + part(ps.last(), locked)
    }
}

pub proof fn lemma_total_push(ps: Seq<Position>, p: Position, locked: bool)
    ensures
        total(ps.push(p), locked) == total(ps, locked) + part(p, locked),
{
    assert(ps.push(p).drop_last() =~= ps);
}

pub proof fn lemma_total_bound(ps: Seq<Position>, k: int, locked: bool)
    requires
        0 <= k < ps.len(),
    ensures
        0 <= part(ps[k], locked) <= total(ps, locked),
        0 <= total(ps.remove(k), locked),
{
    lemma_total_remove(ps, k, locked);
    lemma_total_nonnegative(ps.remove(k), locked);
}

pub proof fn lemma_total_nonnegative(ps: Seq<Position>, locked: bool)
    ensures
        0 <= total(ps, locked),
    decreases ps.len(),
{
    if ps.len() > 0 {
        lemma_total_nonnegative(ps.drop_last(), locked);
    }
}

pub proof fn lemma_total_update(ps: Seq<Position>, k: int, p: Position, locked: bool)
    requires
        0 <= k < ps.len(),
    ensures
        total(ps.update(k, p), locked) == total(ps, locked) - part(ps[k], locked) + part(
            p,
            locked,
        ),
    decreases ps.len(),
{
    if k == ps.len() - 1 {
        assert(ps.update(k, p).drop_last() =~= ps.drop_last());
    } else {
        assert(ps.update(k, p).drop_last() =~= ps.drop_last().update(k, p));
        lemma_total_update(ps.drop_last(), k, p, locked);
    }
}

pub proof fn lemma_total_remove(ps: Seq<Position>, k: int, locked: bool)
    requires
        0 <= k < ps.len(),
    ensures
        total(ps.remove(k), locked) == total(ps, locked) - part(ps[k], locked),
    decreases ps.len(),
{
    if k == ps.len() - 1 {
        assert(ps.remove(k) =~= ps.drop_last());
    } else {
        assert(ps.remove(k).drop_last() =~= ps.drop_last().remove(k));
        lemma_total_remove(ps.drop_last(), k, locked);
    }
}

impl ValidatorEntry {
    /// Whether `delegator` has a position in this pool.
    pub open spec fn holds(self, delegator: Seq<char>) -> bool {
        exists|k: int| 0 <= k < self.positions.len() && #[trigger] self.positions[k].delegator@
            == delegator
    }

    /// Where `delegator`'s position is kept.
    pub open spec fn slot(self, delegator: Seq<char>) -> int {
        choose|k: int| 0 <= k < self.positions.len() && #[trigger] self.positions[k].delegator@
            == delegator
    }

    /// What `delegator` holds in this pool.
    pub open spec fn stake_of(self, delegator: Seq<char>) -> Option<Stake> {
        if self.holds(delegator) {
            Some(self.positions[self.slot(delegator)].stake)
        } else {
            None
        }
    }

    /// No delegator has two positions, and no position is empty.
    pub open spec fn tidy(self) -> bool {
        &&& forall|j: int, k: int|
            0 <= j < k < self.positions.len() ==> #[trigger] self.positions[j].delegator@
                != #[trigger] self.positions[k].delegator@
        &&& forall|k: int| 0 <= k < self.positions.len() ==> #[trigger] self.positions[k].stake.shares > 0
    }

    /// The positions are tidy, their shares add up to the shares the pool
    /// has issued, and their locked tokens to no more than were staked.
    pub open spec fn wf(self) -> bool {
        &&& self.validator.wf()
        &&& self.tidy()
        &&& total(self.positions@, false) == self.validator.shares_issued
        &&& total(self.positions@, true) <= self.validator.tokens_issued
    }

    pub proof fn lemma_slot(self, k: int)
        requires
            self.tidy(),
            0 <= k < self.positions.len(),
        ensures
            self.holds(self.positions[k].delegator@),
            self.slot(self.positions[k].delegator@) == k,
            self.stake_of(self.positions[k].delegator@) == Some(self.positions[k].stake),
    {
        let d = self.positions[k].delegator@;
        let s = self.slot(d);
        assert(0 <= s < self.positions.len() && self.positions[s].delegator@ == d);
        if s < k {
            assert(self.positions[s].delegator@ != self.positions[k].delegator@);
        } else if k < s {
            assert(self.positions[k].delegator@ != self.positions[s].delegator@);
        }
    }

    /// A position is backed by its pool.
    pub proof fn lemma_held(self, k: int)
        requires
            self.wf(),
            0 <= k < self.positions.len(),
        ensures
            self.positions[k].stake.held_in(self.validator),
    {
        lemma_total_bound(self.positions@, k, false);
        lemma_total_bound(self.positions@, k, true);
    }

    /// Finds the position of `delegator`.
    pub fn find(&self, delegator: &Addr) -> (r: Option<usize>)
        ensures
            match r {
                Some(k) => k < self.positions.len() && self.positions[k as int].delegator@
                    == delegator@,
                None => !self.holds(delegator@),
            },
    {
        let mut k: usize = 0;
        while k < self.positions.len()
            invariant
                k <= self.positions.len(),
                forall|j: int| 0 <= j < k ==> #[trigger] self.positions[j].delegator@ != delegator@,
            decreases self.positions.len() - k,
        {
            if self.positions[k].delegator.same(delegator) {
                return Some(k);
            }
            k = k + 1;
        }
        None
    }

    /// Sets the pool to `pool` and the position of `delegator` to `stake`;
    /// a position without shares is not kept.
    pub fn put(&mut self, delegator: Addr, stake: Stake, pool: Validator)
        requires
            old(self).tidy(),
        ensures
            final(self).address == old(self).address,
            final(self).validator == pool,
            final(self).tidy(),
            final(self).stake_of(delegator@) == (if stake.shares > 0 {
                Some(stake)
            } else {
                None
            }),
            forall|e: Seq<char>|
                e != delegator@ ==> #[trigger] final(self).stake_of(e) == old(self).stake_of(e),
            forall|locked: bool| #[trigger]
                total(final(self).positions@, locked) == total(old(self).positions@, locked) - (
                match old(self).stake_of(delegator@) {
                    Some(s) => part(Position { delegator, stake: s }, locked),
                    None => 0,
                }) + (if stake.shares > 0 {
                    part(Position { delegator, stake }, locked)
                } else {
                    0
                }),
    {
        let ghost before = *self;
        let ghost d = delegator@;
        self.validator = pool;
        match self.find(&delegator) {
            Some(k) => {
                proof {
                    before.lemma_slot(k as int);
                }
                if stake.shares > 0 {
                    self.positions[k].stake = stake;
                    proof {
                        let after = *self;
                        assert(after.positions@ =~= before.positions@.update(
                            k as int,
                            Position { delegator: before.positions[k as int].delegator, stake },
                        ));
                        assert forall|j: int| 0 <= j < after.positions.len() implies (
                        #[trigger] after.positions[j]).delegator@
                            == before.positions[j].delegator@ by {}
                        assert(after.tidy());
                        after.lemma_slot(k as int);
                        assert forall|e: Seq<char>| e != d implies #[trigger] after.stake_of(e)
                            == before.stake_of(e) by {
                            if before.holds(e) {
                                let j = before.slot(e);
                                after.lemma_slot(j);
                            } else if after.holds(e) {
                                let j = after.slot(e);
                                assert(before.positions[j].delegator@ == e);
                            }
                        }
                        assert forall|locked: bool| #[trigger]
                            total(after.positions@, locked) == total(before.positions@, locked)
                                - part(Position { delegator, stake: before.positions[k as int].stake }, locked) + part(
                                Position { delegator, stake },
                                locked,
                            ) by {
                            lemma_total_update(
                                before.positions@,
                                k as int,
                                Position { delegator: before.positions[k as int].delegator, stake },
                                locked,
                            );
                        }
                    }
                } else {
                    let _ = self.positions.remove(k);
                    proof {
                        let after = *self;
                        assert forall|j: int| 0 <= j < after.positions.len() implies (
                        #[trigger] after.positions[j]) == before.positions[if j < k {
                            j
                        } else {
                            j + 1
                        }] by {}
                        assert(after.tidy());
                        if after.holds(d) {
                            let j = after.slot(d);
                            assert(after.positions[j] == before.positions[if j < k {
                                j
                            } else {
                                j + 1
                            }]);
                        }
                        assert forall|e: Seq<char>| e != d implies #[trigger] after.stake_of(e)
                            == before.stake_of(e) by {
                            if before.holds(e) {
                                let j = before.slot(e);
                                let i = if j < k {
                                    j
                                } else {
                                    j - 1
                                };
                                assert(after.positions[i] == before.positions[j]);
                                after.lemma_slot(i);
                            } else if after.holds(e) {
                                let j = after.slot(e);
                                assert(after.positions[j] == before.positions[if j < k {
                                    j
                                } else {
                                    j + 1
                                }]);
                            }
                        }
                        assert forall|locked: bool| #[trigger]
                            total(after.positions@, locked) == total(before.positions@, locked)
                                - part(Position { delegator, stake: before.positions[k as int].stake }, locked) by {
                            lemma_total_remove(before.positions@, k as int, locked);
                        }
                    }
                }
            },
            None => {
                if stake.shares > 0 {
                    self.positions.push(Position { delegator, stake });
                    proof {
                        let after = *self;
                        let n = before.positions.len() as int;
                        assert forall|j: int| 0 <= j < n implies (#[trigger] after.positions[j])
                            == before.positions[j] by {}
                        assert(after.positions[n].delegator@ == d);
                        assert(after.tidy()) by {
                            assert forall|i: int, j: int|
                                0 <= i < j < after.positions.len() implies (
                            #[trigger] after.positions[i]).delegator@
                                != (#[trigger] after.positions[j]).delegator@ by {
                                assert(after.positions[i] == before.positions[i]);
                                if j < n {
                                    assert(after.positions[j] == before.positions[j]);
                                } else {
                                    assert(before.positions[i].delegator@ != d);
                                }
                            }
                        }
                        after.lemma_slot(n);
                        assert forall|e: Seq<char>| e != d implies #[trigger] after.stake_of(e)
                            == before.stake_of(e) by {
                            if before.holds(e) {
                                let j = before.slot(e);
                                assert(after.positions[j] == before.positions[j]);
                                after.lemma_slot(j);
                            } else if after.holds(e) {
                                let j = after.slot(e);
                                assert(after.positions[j] == before.positions[j]);
                            }
                        }
                        assert forall|locked: bool| #[trigger]
                            total(after.positions@, locked) == total(before.positions@, locked)
                                + part(Position { delegator, stake }, locked) by {
                            lemma_total_push(
                                before.positions@,
                                Position { delegator, stake },
                                locked,
                            );
                        }
                    }
                } else {
                    proof {
                        let after = *self;
                        assert(after.positions@ == before.positions@);
                        assert forall|e: Seq<char>| e != d implies #[trigger] after.stake_of(e)
                            == before.stake_of(e) by {}
                    }
                }
            },
        }
    }
}


impl Ledger {
    /// Whether a validator is registered under `address`.
    pub open spec fn has_validator(self, address: Seq<char>) -> bool {
        exists|i: int| 0 <= i < self.validators.len() && #[trigger] self.validators[i].address@
            == address
    }

    /// Where the validator registered under `address` is kept.
    pub open spec fn index_of(self, address: Seq<char>) -> int {
        choose|i: int| 0 <= i < self.validators.len() && #[trigger] self.validators[i].address@
            == address
    }

    /// The pool of the validator registered under `address`.
    pub open spec fn get_validator(self, address: Seq<char>) -> Option<Validator> {
        if self.has_validator(address) {
            Some(self.validators[self.index_of(address)].validator)
        } else {
            None
        }
    }

    /// What `delegator` holds in the pool of the validator under `address`.
    pub open spec fn get_stake(self, delegator: Seq<char>, address: Seq<char>) -> Option<Stake> {
        if self.has_validator(address) {
            self.validators[self.index_of(address)].stake_of(delegator)
        } else {
            None
        }
    }

    /// `get_stake`, with an empty position where there is none.
    pub open spec fn stake_or_empty(self, delegator: Seq<char>, address: Seq<char>) -> Stake {
        match self.get_stake(delegator, address) {
            Some(stake) => stake,
            None => Stake { shares: 0, locked: 0 },
        }
    }

    /// The addresses of the validators, in the order they are kept.
    pub open spec fn addresses(self) -> Seq<Seq<char>> {
        Seq::new(self.validators.len() as nat, |i: int| self.validators[i].address@)
    }

    /// The validators stand in strictly ascending order of their address.
    pub open spec fn sorted(self) -> bool {
        forall|i: int, j: int|
            0 <= i < j < self.validators.len() ==> str_precedes(
                #[trigger] self.validators[i].address@,
                #[trigger] self.validators[j].address@,
            )
    }

    /// The validators are sorted, so none is registered twice, and every
    /// pool agrees with the positions held in it.
    pub open spec fn wf(self) -> bool {
        &&& self.sorted()
        &&& forall|i: int| 0 <= i < self.validators.len() ==> (#[trigger] self.validators[i]).wf()
    }

    /// `then` is this ledger but for the pool of the validator under
    /// `address` and for what `delegator` holds in it.
    pub open spec fn same_but(self, then: Ledger, delegator: Seq<char>, address: Seq<char>) -> bool {
        &&& then.config == self.config
        &&& then.addresses() == self.addresses()
        &&& forall|b: Seq<char>|
            b != address ==> #[trigger] then.get_validator(b) == self.get_validator(b)
        &&& forall|e: Seq<char>, b: Seq<char>|
            (e != delegator || b != address) ==> #[trigger] then.get_stake(e, b) == self.get_stake(
                e,
                b,
            )
    }

    /// `then` is this ledger but for the pool of the validator under
    /// `address`; every position is as it was.
    pub open spec fn same_but_pool(self, then: Ledger, address: Seq<char>) -> bool {
        &&& then.config == self.config
        &&& then.addresses() == self.addresses()
        &&& forall|b: Seq<char>|
            b != address ==> #[trigger] then.get_validator(b) == self.get_validator(b)
        &&& forall|e: Seq<char>, b: Seq<char>| #[trigger]
            then.get_stake(e, b) == self.get_stake(e, b)
    }

    pub proof fn lemma_index(self, i: int)
        requires
            self.sorted(),
            0 <= i < self.validators.len(),
        ensures
            self.has_validator(self.validators[i].address@),
            self.index_of(self.validators[i].address@) == i,
            self.get_validator(self.validators[i].address@) == Some(self.validators[i].validator),
            forall|d: Seq<char>| #[trigger]
                self.get_stake(d, self.validators[i].address@) == self.validators[i].stake_of(d),
    {
        let a = self.validators[i].address@;
        let j = self.index_of(a);
        assert(0 <= j < self.validators.len() && self.validators[j].address@ == a);
        if j < i {
            lemma_str_trichotomy(self.validators[j].address@, self.validators[i].address@);
        } else if i < j {
            lemma_str_trichotomy(self.validators[i].address@, self.validators[j].address@);
        }
    }

    /// Replacing one entry by another of the same address leaves every
    /// other validator and position as it was.
    pub proof fn lemma_replaced(self, then: Ledger, i: int)
        requires
            self.sorted(),
            0 <= i < self.validators.len(),
            then.config == self.config,
            then.validators.len() == self.validators.len(),
            then.validators[i].address == self.validators[i].address,
            forall|j: int|
                0 <= j < self.validators.len() && j != i ==> #[trigger] then.validators[j]
                    == self.validators[j],
        ensures
            then.sorted(),
            then.addresses() == self.addresses(),
            then.get_validator(self.validators[i].address@) == Some(then.validators[i].validator),
            forall|d: Seq<char>| #[trigger]
                then.get_stake(d, self.validators[i].address@) == then.validators[i].stake_of(d),
            forall|b: Seq<char>|
                b != self.validators[i].address@ ==> #[trigger] then.get_validator(b)
                    == self.get_validator(b),
            forall|e: Seq<char>, b: Seq<char>|
                b != self.validators[i].address@ ==> #[trigger] then.get_stake(e, b)
                    == self.get_stake(e, b),
    {
        assert forall|j: int| 0 <= j < self.validators.len() implies (
        #[trigger] then.validators[j]).address@ == self.validators[j].address@ by {}
        assert(then.addresses() =~= self.addresses());
        assert(then.sorted());
        then.lemma_index(i);
        assert forall|b: Seq<char>| b != self.validators[i].address@ implies (
        #[trigger] then.get_validator(b)) == self.get_validator(b) && (forall|e: Seq<char>| #[trigger]
            then.get_stake(e, b) == self.get_stake(e, b)) by {
            if self.has_validator(b) {
                let j = self.index_of(b);
                assert(then.validators[j] == self.validators[j]);
                then.lemma_index(j);
                self.lemma_index(j);
            } else if then.has_validator(b) {
                let j = then.index_of(b);
                assert(self.validators[j].address@ == b);
            }
        }
    }

    /// A ledger without validators.
    pub fn new(config: Config) -> (ledger: Ledger)
        ensures
            ledger.wf(),
            ledger.config == config,
            ledger.validators@.len() == 0,
            forall|a: Seq<char>| !ledger.has_validator(a),
    {
        Ledger { config, validators: Vec::new() }
    }

    /// Finds the validator registered under `address`.
    pub fn find(&self, address: &str) -> (r: Option<usize>)
        ensures
            match r {
                Some(i) => i < self.validators.len() && self.validators[i as int].address@
                    == address@,
                None => !self.has_validator(address@),
            },
    {
        let mut i: usize = 0;
        while i < self.validators.len()
            invariant
                i <= self.validators.len(),
                forall|j: int| 0 <= j < i ==> #[trigger] self.validators[j].address@ != address@,
            decreases self.validators.len() - i,
        {
            if same(self.validators[i].address.as_str(), address) {
                return Some(i);
            }
            i = i + 1;
        }
        None
    }

    /// The pool of the validator registered under `address`.
    pub fn validator(&self, address: &str) -> (r: Option<Validator>)
        requires
            self.wf(),
        ensures
            r == self.get_validator(address@),
    {
        match self.find(address) {
            Some(i) => {
                proof {
                    self.lemma_index(i as int);
                }
                Some(self.validators[i].validator)
            },
            None => None,
        }
    }

    /// What `delegator` holds in the pool of the validator under `address`.
    pub fn position(&self, delegator: &Addr, address: &str) -> (r: Option<Stake>)
        requires
            self.wf(),
        ensures
            r == self.get_stake(delegator@, address@),
    {
        match self.find(address) {
            Some(i) => {
                proof {
                    self.lemma_index(i as int);
                }
                let entry = &self.validators[i];
                match entry.find(delegator) {
                    Some(k) => {
                        proof {
                            entry.lemma_slot(k as int);
                        }
                        Some(entry.positions[k].stake)
                    },
                    None => None,
                }
            },
            None => None,
        }
    }

    /// Registers an active validator with an empty pool under `address`,
    /// keeping the order of addresses. Returns `false`, changing nothing,
    /// where the address is taken.
    pub fn add_validator(&mut self, address: String, multiplier: Decimal) -> (added: bool)
        requires
            old(self).wf(),
        ensures
            final(self).wf(),
            added == !old(self).has_validator(address@),
            !added ==> *final(self) == *old(self),
            added ==> final(self).get_validator(address@) == Some(
                Validator {
                    multiplier,
                    tokens_issued: 0,
                    shares_issued: 0,
                    slash_ratio: Decimal { atomics: crate::math::DECIMAL_FRACTIONAL },
                    status: ValStatus::Active,
                },
            ),
            added ==> final(self).config == old(self).config,
            added ==> forall|b: Seq<char>|
                b != address@ ==> #[trigger] final(self).get_validator(b) == old(self).get_validator(b),
            added ==> forall|e: Seq<char>, b: Seq<char>| #[trigger]
                final(self).get_stake(e, b) == old(self).get_stake(e, b),
    {
        if self.find(address.as_str()).is_some() {
            return false;
        }
        let ghost before = *self;
        let ghost a = address@;
        let mut k: usize = 0;
        while k < self.validators.len() && comes_before(
            self.validators[k].address.as_str(),
            address.as_str(),
        )
            invariant
                *self == before,
                a == address@,
                k <= self.validators.len(),
                forall|j: int| 0 <= j < k ==> str_precedes(#[trigger] self.validators[j].address@, a),
            decreases self.validators.len() - k,
        {
            k = k + 1;
        }
        proof {
            if k < before.validators.len() {
                let next = before.validators[k as int].address@;
                assert(next != a);
                lemma_str_trichotomy(next, a);
                assert(str_precedes(a, next));
                assert forall|j: int| k < j < before.validators.len() implies str_precedes(
                    a,
                    #[trigger] before.validators[j].address@,
                ) by {
                    lemma_str_precedes_transitive(a, next, before.validators[j].address@);
                }
            }
        }
        let entry = ValidatorEntry {
            address,
            validator: Validator::new(multiplier),
            positions: Vec::new(),
        };
        self.validators.insert(k, entry);
        proof {
            let after = *self;
            assert forall|j: int| 0 <= j < after.validators.len() implies (
            #[trigger] after.validators[j]) == (if j < k {
                before.validators[j]
            } else if j == k {
                entry
            } else {
                before.validators[j - 1]
            }) by {}
            assert(after.sorted()) by {
                assert forall|i: int, j: int| 0 <= i < j < after.validators.len() implies str_precedes(
                    #[trigger] after.validators[i].address@,
                    #[trigger] after.validators[j].address@,
                ) by {
                    let i0 = if i < k { i } else { i - 1 };
                    let j0 = if j < k { j } else { j - 1 };
                    if i != k && j != k {
                        assert(str_precedes(before.validators[i0].address@, before.validators[j0].address@));
                    }
                }
            }
            assert(total(entry.positions@, false) == 0);
            assert(total(entry.positions@, true) == 0);
            assert(entry.wf());
            assert(after.wf());
            after.lemma_index(k as int);
            assert forall|b: Seq<char>| b != a implies (#[trigger] after.get_validator(b))
                == before.get_validator(b) && (forall|e: Seq<char>| #[trigger]
                after.get_stake(e, b) == before.get_stake(e, b)) by {
                if before.has_validator(b) {
                    let j = before.index_of(b);
                    let i = if j < k { j } else { j + 1 };
                    assert(after.validators[i] == before.validators[j]);
                    after.lemma_index(i);
                    before.lemma_index(j);
                } else if after.has_validator(b) {
                    let i = after.index_of(b);
                    let j = if i < k { i } else { i - 1 };
                    assert(before.validators[j].address@ == b);
                }
            }
            assert forall|e: Seq<char>, b: Seq<char>| #[trigger]
                after.get_stake(e, b) == before.get_stake(e, b) by {
                if b == a {
                    assert(after.validators[k as int] == entry);
                    assert(after.get_stake(e, a) == entry.stake_of(e));
                    assert(!entry.holds(e));
                } else {
                    assert(after.get_validator(b) == before.get_validator(b));
                }
            }
        }
        true
    }

    /// Takes the validator under `address` out of the active set. A
    /// validator that has left it already stays as it is.
    pub fn remove_validator(&mut self, address: &str) -> (r: Result<(), ContractError>)
        requires
            old(self).wf(),
        ensures
            final(self).wf(),
            match old(self).get_validator(address@) {
                None => r matches Err(ContractError::UnknownValidator(v)) && v@ == address@
                    && *final(self) == *old(self),
                Some(pool) => r is Ok && final(self).get_validator(address@) == Some(
                    Validator {
                        status: if pool.status is Active {
                            ValStatus::Removed
                        } else {
                            pool.status
                        },
                        ..pool
                    },
                ) && old(self).same_but_pool(*final(self), address@),
            },
    {
        let i: usize = match self.find(address) {
            Some(i) => i,
            None => { return Err(ContractError::UnknownValidator(String::from_str(address))); },
        };
        let ghost before = *self;
        proof {
            before.lemma_index(i as int);
        }
        match self.validators[i].validator.status {
            ValStatus::Active => {
                self.validators[i].validator.status = ValStatus::Removed;
            },
            _ => {},
        }
        proof {
            let after = *self;
            assert(after.validators[i as int].positions == before.validators[i as int].positions);
            before.lemma_replaced(after, i as int);
            assert forall|e: Seq<char>, b: Seq<char>| #[trigger]
                after.get_stake(e, b) == before.get_stake(e, b) by {
                if b == address@ {
                    assert(after.validators[i as int].stake_of(e) == before.validators[i as int].stake_of(e));
                }
            }
        }
        Ok(())
    }

    /// Lowers the value of every share of the validator under `address` by
    /// `percentage`, and tombstones the validator if `force_unbond` is
    /// set. A percentage above one is refused as an overflow.
    pub fn slash(&mut self, address: &str, percentage: Decimal, force_unbond: bool) -> (r: Result<
        (),
        ContractError,
    >)
        requires
            old(self).wf(),
        ensures
            final(self).wf(),
            old(self).slashed(*final(self), failure(r), address@, percentage, force_unbond),
    {
        let i: usize = match self.find(address) {
            Some(i) => i,
            None => { return Err(ContractError::UnknownValidator(String::from_str(address))); },
        };
        let ghost before = *self;
        proof {
            before.lemma_index(i as int);
        }
        if percentage.atomics > crate::math::DECIMAL_FRACTIONAL {
            return Err(ContractError::Std(StdError::overflow()));
        }
        let mut pool: Validator = self.validators[i].validator;
        pool.slash(percentage);
        if force_unbond {
            pool.status = ValStatus::Tombstoned;
        }
        self.validators[i].validator = pool;
        proof {
            let after = *self;
            assert(after.validators[i as int].positions == before.validators[i as int].positions);
            before.lemma_replaced(after, i as int);
            assert forall|e: Seq<char>, b: Seq<char>| #[trigger]
                after.get_stake(e, b) == before.get_stake(e, b) by {
                if b == address@ {
                    assert(after.validators[i as int].stake_of(e) == before.validators[i as int].stake_of(e));
                }
            }
        }
        Ok(())
    }

    /// Stakes `amount` tokens of `delegator` with the validator under
    /// `address`, which has to be active.
    pub fn add_stake(&mut self, delegator: Addr, address: &str, amount: u128) -> (r: Result<
        (),
        ContractError,
    >)
        requires
            old(self).wf(),
        ensures
            final(self).wf(),
            old(self).stake_added(*final(self), failure(r), delegator@, address@, amount),
    {
        let i: usize = match self.find(address) {
            Some(i) => i,
            None => { return Err(ContractError::UnknownValidator(String::from_str(address))); },
        };
        let ghost before = *self;
        proof {
            before.lemma_index(i as int);
        }
        let entry = &self.validators[i];
        match entry.validator.status {
            ValStatus::Active => {},
            _ => { return Err(ContractError::RemovedValidator(String::from_str(address))); },
        }
        let mut stake: Stake = match entry.find(&delegator) {
            Some(k) => {
                proof {
                    entry.lemma_slot(k as int);
                    entry.lemma_held(k as int);
                }
                entry.positions[k].stake
            },
            None => Stake { shares: 0, locked: 0 },
        };
        let mut pool: Validator = entry.validator;
        match stake.stake_validator(&mut pool, amount) {
            Ok(()) => {},
            Err(e) => { return Err(e); },
        }
        let ghost d = delegator@;
        self.validators[i].put(delegator, stake, pool);
        proof {
            let after = *self;
            let was = before.validators[i as int];
            let now = after.validators[i as int];
            assert(total(now.positions@, false) == pool.shares_issued);
            assert(total(now.positions@, true) <= pool.tokens_issued);
            before.lemma_replaced(after, i as int);
            assert forall|e: Seq<char>, b: Seq<char>| (e != d || b != address@) implies (
            #[trigger] after.get_stake(e, b)) == before.get_stake(e, b) by {
                if b == address@ {
                    assert(now.stake_of(e) == was.stake_of(e));
                }
            }
        }
        Ok(())
    }

    /// Unstakes `amount` tokens of `delegator` from the validator under
    /// `address`, which has to be active.
    pub fn remove_stake(&mut self, delegator: &Addr, address: &str, amount: u128) -> (r: Result<
        (),
        ContractError,
    >)
        requires
            old(self).wf(),
        ensures
            final(self).wf(),
            old(self).stake_removed(*final(self), failure(r), delegator@, address@, amount),
    {
        let i: usize = match self.find(address) {
            Some(i) => i,
            None => { return Err(ContractError::UnknownValidator(String::from_str(address))); },
        };
        let ghost before = *self;
        proof {
            before.lemma_index(i as int);
        }
        let entry = &self.validators[i];
        match entry.validator.status {
            ValStatus::Active => {},
            _ => { return Err(ContractError::RemovedValidator(String::from_str(address))); },
        }
        let mut stake: Stake = match entry.find(delegator) {
            Some(k) => {
                proof {
                    entry.lemma_slot(k as int);
                    entry.lemma_held(k as int);
                }
                entry.positions[k].stake
            },
            None => {
                return Err(
                    ContractError::Std(StdError::NotFound { kind: String::from_str("Stake") }),
                );
            },
        };
        let mut pool: Validator = entry.validator;
        let ghost held = stake;
        match stake.unstake_validator(&mut pool, amount) {
            Ok(()) => {},
            Err(e) => { return Err(e); },
        }
        let ghost d = delegator@;
        self.validators[i].put(delegator.duplicate(), stake, pool);
        proof {
            let after = *self;
            let was = before.validators[i as int];
            let now = after.validators[i as int];
            held.lemma_unstake_bounded(was.validator, amount);
            if stake.shares == 0 {
                crate::math::lemma_mul_div_same(held.locked as int, held.shares as int);
            }
            assert(total(now.positions@, false) == pool.shares_issued);
            assert(total(now.positions@, true) <= pool.tokens_issued);
            before.lemma_replaced(after, i as int);
            assert forall|e: Seq<char>, b: Seq<char>| (e != d || b != address@) implies (
            #[trigger] after.get_stake(e, b)) == before.get_stake(e, b) by {
                if b == address@ {
                    assert(now.stake_of(e) == was.stake_of(e));
                }
            }
        }
        Ok(())
    }
}


/// The error of a failed operation, `None` for one that succeeded.
pub open spec fn failure<T>(r: Result<T, ContractError>) -> Option<ContractError> {
    match r {
        Ok(_) => None,
        Err(e) => Some(e),
    }
}

impl Ledger {
    /// `then` and `failed` are what staking `amount` tokens of `delegator`
    /// with the validator under `address` makes of this ledger: the failure
    /// and an unchanged ledger where the validator is unknown, has left the
    /// active set or the totals would overflow, else the new pool and
    /// position and nothing else changed.
    pub open spec fn stake_added(
        self,
        then: Ledger,
        failed: Option<ContractError>,
        delegator: Seq<char>,
        address: Seq<char>,
        amount: u128,
    ) -> bool {
        match self.get_validator(address) {
            None => failed matches Some(ContractError::UnknownValidator(v)) && v@ == address
                && then == self,
            Some(pool) => if !(pool.status is Active) {
                failed matches Some(ContractError::RemovedValidator(v)) && v@ == address && then
                    == self
            } else {
                match self.stake_or_empty(delegator, address).staked(pool, amount) {
                    None => failed matches Some(ContractError::Std(StdError::Overflow)) && then
                        == self,
                    Some((stake, pool)) => failed is None && then.get_validator(address) == Some(
                        pool,
                    ) && then.get_stake(delegator, address) == (if stake.shares > 0 {
                        Some(stake)
                    } else {
                        None
                    }) && self.same_but(then, delegator, address),
                }
            },
        }
    }

    /// `then` and `failed` are what unstaking `amount` tokens of
    /// `delegator` from the validator under `address` makes of this ledger:
    /// the failure and an unchanged ledger where the validator is unknown or
    /// has left the active set, where the delegator holds nothing there or
    /// less than `amount`, else the new pool and position and nothing else
    /// changed.
    pub open spec fn stake_removed(
        self,
        then: Ledger,
        failed: Option<ContractError>,
        delegator: Seq<char>,
        address: Seq<char>,
        amount: u128,
    ) -> bool {
        match self.get_validator(address) {
            None => failed matches Some(ContractError::UnknownValidator(v)) && v@ == address
                && then == self,
            Some(pool) => if !(pool.status is Active) {
                failed matches Some(ContractError::RemovedValidator(v)) && v@ == address && then
                    == self
            } else {
                match self.get_stake(delegator, address) {
                    None => failed matches Some(ContractError::Std(StdError::NotFound { kind }))
                        && kind@ == "Stake"@ && then == self,
                    Some(held) => match held.unstaked(pool, amount) {
                        None => failed matches Some(ContractError::InsufficientStake) && then
                            == self,
                        Some((stake, pool)) => failed is None && then.get_validator(address)
                            == Some(pool) && then.get_stake(delegator, address) == (
                        if stake.shares > 0 {
                            Some(stake)
                        } else {
                            None
                        }) && self.same_but(then, delegator, address),
                    },
                }
            },
        }
    }

    /// `then` and `failed` are what a slash of the validator under
    /// `address` makes of this ledger: the failure and an unchanged ledger
    /// where the validator is unknown or the percentage is above one, else
    /// the pool with its lowered ratio, tombstoned if `force_unbond` is set,
    /// and nothing else changed.
    pub open spec fn slashed(
        self,
        then: Ledger,
        failed: Option<ContractError>,
        address: Seq<char>,
        percentage: Decimal,
        force_unbond: bool,
    ) -> bool {
        match self.get_validator(address) {
            None => failed matches Some(ContractError::UnknownValidator(v)) && v@ == address
                && then == self,
            Some(pool) => if percentage.is_ratio() {
                failed is None && then.get_validator(address) == Some(
                    Validator {
                        slash_ratio: Decimal { atomics: pool.slashed_ratio(percentage) as u128 },
                        status: if force_unbond {
                            ValStatus::Tombstoned
                        } else {
                            pool.status
                        },
                        ..pool
                    },
                ) && self.same_but_pool(then, address)
            } else {
                failed matches Some(ContractError::Std(StdError::Overflow)) && then == self
            },
        }
    }
}


/// The positions up to the `k`-th add up to no more than all of them.
pub proof fn lemma_total_prefix(ps: Seq<Position>, k: int, locked: bool)
    requires
        0 <= k <= ps.len(),
    ensures
        0 <= total(ps.take(k), locked) <= total(ps, locked),
        k < ps.len() ==> total(ps.take(k + 1), locked) == total(ps.take(k), locked) + part(
            ps[k],
            locked,
        ),
    decreases ps.len() - k,
{
    lemma_total_nonnegative(ps.take(k), locked);
    if k == ps.len() {
        assert(ps.take(k) =~= ps);
    } else {
        assert(ps.take(k + 1) =~= ps.take(k).push(ps[k]));
        lemma_total_push(ps.take(k), ps[k], locked);
        lemma_total_prefix(ps, k + 1, locked);
    }
}

impl ValidatorEntry {
    /// Decides whether pool and positions agree.
    pub fn is_wf(&self) -> (ok: bool)
        ensures
            ok == self.wf(),
    {
        if self.validator.slash_ratio.atomics > crate::math::DECIMAL_FRACTIONAL {
            return false;
        }
        let mut shares: u128 = 0;
        let mut locked: u128 = 0;
        let mut k: usize = 0;
        proof {
            assert(self.positions@.take(0) =~= Seq::<Position>::empty());
        }
        while k < self.positions.len()
            invariant
                self.validator.wf(),
                k <= self.positions.len(),
                shares == total(self.positions@.take(k as int), false),
                locked == total(self.positions@.take(k as int), true),
                shares <= self.validator.shares_issued,
                locked <= self.validator.tokens_issued,
                forall|j: int| 0 <= j < k ==> #[trigger] self.positions[j].stake.shares > 0,
                forall|i: int, j: int|
                    0 <= i < j < k ==> #[trigger] self.positions[i].delegator@
                        != #[trigger] self.positions[j].delegator@,
            decreases self.positions.len() - k,
        {
            let position = &self.positions[k];
            if position.stake.shares == 0 {
                return false;
            }
            let mut j: usize = 0;
            while j < k
                invariant
                    j <= k < self.positions.len(),
                    *position == self.positions[k as int],
                    forall|i: int| 0 <= i < j ==> #[trigger] self.positions[i].delegator@
                        != position.delegator@,
                decreases k - j,
            {
                if self.positions[j].delegator.same(&position.delegator) {
                    proof {
                        assert(self.positions[j as int].delegator@ == self.positions[k as int].delegator@);
                    }
                    return false;
                }
                j = j + 1;
            }
            proof {
                lemma_total_prefix(self.positions@, k as int, false);
                lemma_total_prefix(self.positions@, k as int, true);
                lemma_total_prefix(self.positions@, k + 1, false);
                lemma_total_prefix(self.positions@, k + 1, true);
            }
            if position.stake.shares > self.validator.shares_issued - shares {
                return false;
            }
            if position.stake.locked > self.validator.tokens_issued - locked {
                return false;
            }
            shares = shares + position.stake.shares;
            locked = locked + position.stake.locked;
            k = k + 1;
        }
        proof {
            assert(self.positions@.take(k as int) =~= self.positions@);
        }
        shares == self.validator.shares_issued
    }
}

impl Ledger {
    /// Decides whether the validators are in order and every pool agrees
    /// with its positions.
    pub fn is_wf(&self) -> (ok: bool)
        ensures
            ok == self.wf(),
    {
        let mut i: usize = 0;
        while i < self.validators.len()
            invariant
                i <= self.validators.len(),
                forall|j: int| 0 <= j < i ==> (#[trigger] self.validators[j]).wf(),
                forall|a: int, b: int|
                    0 <= a < b < i ==> str_precedes(
                        #[trigger] self.validators[a].address@,
                        #[trigger] self.validators[b].address@,
                    ),
            decreases self.validators.len() - i,
        {
            if !self.validators[i].is_wf() {
                return false;
            }
            if i > 0 {
                if !comes_before(
                    self.validators[i - 1].address.as_str(),
                    self.validators[i].address.as_str(),
                ) {
                    return false;
                }
                proof {
                    assert forall|a: int| 0 <= a < i - 1 implies str_precedes(
                        #[trigger] self.validators[a].address@,
                        self.validators[i as int].address@,
                    ) by {
                        lemma_str_precedes_transitive(
                            self.validators[a].address@,
                            self.validators[i - 1].address@,
                            self.validators[i as int].address@,
                        );
                    }
                }
            }
            i = i + 1;
        }
        true
    }

    /// Puts a ledger together from its records, if they make one: the
    /// validators in ascending order of their address, and every pool in
    /// agreement with its positions.
    pub fn restore(config: Config, validators: Vec<ValidatorEntry>) -> (r: Option<Ledger>)
        ensures
            r is Some == (Ledger { config, validators }).wf(),
            r matches Some(ledger) ==> ledger == (Ledger { config, validators }),
    {
        let ledger = Ledger { config, validators };
        if ledger.is_wf() {
            Some(ledger)
        } else {
            None
        }
    }
}

} // verus!
