use mesh_provider::error::ContractError;
use mesh_provider::error::StdError;
use mesh_provider::math::Decimal;
use mesh_provider::state::Stake;
use mesh_provider::state::ValStatus;
use mesh_provider::state::Validator;

fn pool(tokens: u128, shares: u128, ratio: Decimal) -> Validator {
    Validator {
        multiplier: Decimal::one(),
        tokens_issued: tokens,
        shares_issued: shares,
        slash_ratio: ratio,
        status: ValStatus::Active,
    }
}

#[test]
fn decimal_constructors() {
    assert_eq!(Decimal::one().atomics(), 1_000_000_000_000_000_000);
    assert_eq!(Decimal::zero().atomics(), 0);
    assert_eq!(Decimal::percent(10).atomics(), 100_000_000_000_000_000);
    assert_eq!(Decimal::percent(u64::MAX).atomics(), u64::MAX as u128 * 10_000_000_000_000_000);
    assert_eq!(Decimal::raw(7), Decimal { atomics: 7 });
    assert!(Decimal::zero().is_zero());
    assert!(!Decimal::raw(1).is_zero());
}

#[test]
fn stake_value_rounds_toward_zero() {
    assert_eq!(pool(1_000, 1_000, Decimal::percent(90)).stake_value(), 900);
    assert_eq!(pool(7, 7, Decimal::percent(50)).stake_value(), 3);
    assert_eq!(pool(1, 1, Decimal::raw(999_999_999_999_999_999)).stake_value(), 0);
    assert_eq!(pool(0, 0, Decimal::one()).stake_value(), 0);
    // the product passes 128 bits, the quotient does not
    assert_eq!(pool(u128::MAX, 1, Decimal::one()).stake_value(), u128::MAX);
    assert_eq!(pool(u128::MAX, 1, Decimal::percent(50)).stake_value(), u128::MAX / 2);
}

#[test]
fn new_validator_is_empty_and_unslashed() {
    let v = Validator::new(Decimal::percent(150));
    assert_eq!(v.multiplier, Decimal::percent(150));
    assert_eq!((v.tokens_issued, v.shares_issued), (0, 0));
    assert_eq!(v.slash_ratio, Decimal::one());
    assert_eq!(v.status, ValStatus::Active);
}

#[test]
fn shares_follow_multiplier_then_pool_price() {
    let fresh = Validator::new(Decimal::percent(150));
    assert_eq!(fresh.tokens_to_shares(3), Some(4));
    assert_eq!(fresh.tokens_to_shares(0), Some(0));
    assert_eq!(Validator::new(Decimal::percent(50)).tokens_to_shares(1), Some(0));
    assert_eq!(fresh.tokens_to_shares(u128::MAX), None);
    let slashed = pool(1_000, 1_000, Decimal::percent(90));
    assert_eq!(slashed.tokens_to_shares(900), Some(1_000));
    assert_eq!(slashed.tokens_to_shares(1), Some(1));
    assert_eq!(slashed.tokens_to_shares(10), Some(11));
    assert_eq!(pool(1_000, 1_000, Decimal::zero()).tokens_to_shares(1), None);
    assert_eq!(pool(10, u128::MAX, Decimal::one()).tokens_to_shares(11), None);
}

#[test]
fn slash_multiplies_the_ratio() {
    let mut v = pool(10, 10, Decimal::one());
    v.slash(Decimal::percent(10));
    assert_eq!(v.slash_ratio, Decimal::percent(90));
    v.slash(Decimal::percent(50));
    assert_eq!(v.slash_ratio, Decimal::percent(45));
    v.slash(Decimal::zero());
    assert_eq!(v.slash_ratio, Decimal::percent(45));
    v.slash(Decimal::raw(1));
    assert_eq!(v.slash_ratio, Decimal::raw(449_999_999_999_999_999));
    v.slash(Decimal::one());
    assert_eq!(v.slash_ratio, Decimal::zero());
    assert_eq!((v.tokens_issued, v.shares_issued, v.status), (10, 10, ValStatus::Active));
}

#[test]
fn current_value_is_the_share_of_the_pool() {
    let v = pool(1_000, 1_000, Decimal::percent(90));
    assert_eq!(Stake { shares: 1_000, locked: 1_000 }.current_value(&v), 900);
    assert_eq!(Stake { shares: 1, locked: 1 }.current_value(&v), 0);
    assert_eq!(Stake { shares: 333, locked: 333 }.current_value(&v), 299);
    assert_eq!(Stake { shares: 0, locked: 0 }.current_value(&pool(5, 0, Decimal::one())), 0);
    let v = pool(u128::MAX, u128::MAX, Decimal::one());
    assert_eq!(Stake { shares: u128::MAX, locked: 1 }.current_value(&v), u128::MAX);
}

#[test]
fn stake_validator_adds_tokens_and_shares() {
    let mut v = Validator::new(Decimal::one());
    let mut s = Stake { shares: 0, locked: 0 };
    s.stake_validator(&mut v, 1_000).unwrap();
    assert_eq!(s, Stake { shares: 1_000, locked: 1_000 });
    assert_eq!((v.tokens_issued, v.shares_issued), (1_000, 1_000));
    v.slash(Decimal::percent(10));
    let mut t = Stake { shares: 0, locked: 0 };
    t.stake_validator(&mut v, 900).unwrap();
    assert_eq!(t, Stake { shares: 1_000, locked: 900 });
    assert_eq!((v.tokens_issued, v.shares_issued), (1_900, 2_000));
    assert_eq!(v.stake_value(), 1_710);
    assert_eq!(t.current_value(&v), 855);
}

#[test]
fn stake_validator_fails_without_changing_anything() {
    let mut v = pool(u128::MAX, 5, Decimal::one());
    let mut s = Stake { shares: 5, locked: 9 };
    assert_eq!(s.stake_validator(&mut v, 1).unwrap_err(), ContractError::Std(StdError::Overflow));
    assert_eq!(s, Stake { shares: 5, locked: 9 });
    assert_eq!(v, pool(u128::MAX, 5, Decimal::one()));
    let mut v = pool(10, 10, Decimal::one());
    let mut s = Stake { shares: 1, locked: u128::MAX };
    assert_eq!(s.stake_validator(&mut v, 1).unwrap_err(), ContractError::Std(StdError::Overflow));
    assert_eq!(v, pool(10, 10, Decimal::one()));
}

#[test]
fn unstake_validator_burns_rounded_up_shares() {
    let mut v = pool(1_000, 1_000, Decimal::percent(90));
    let mut s = Stake { shares: 1_000, locked: 1_000 };
    s.unstake_validator(&mut v, 450).unwrap();
    assert_eq!(s, Stake { shares: 500, locked: 500 });
    assert_eq!((v.tokens_issued, v.shares_issued), (500, 500));
    // 7 tokens at 450/500 a share are 7.78 shares: 8 leave
    s.unstake_validator(&mut v, 7).unwrap();
    assert_eq!(s, Stake { shares: 492, locked: 492 });
    s.unstake_validator(&mut v, 0).unwrap();
    assert_eq!(s, Stake { shares: 492, locked: 492 });
    assert_eq!(s.unstake_validator(&mut v, 443).unwrap_err(), ContractError::InsufficientStake);
    assert_eq!(s, Stake { shares: 492, locked: 492 });
    s.unstake_validator(&mut v, 442).unwrap();
    assert_eq!(s, Stake { shares: 0, locked: 0 });
    assert_eq!((v.tokens_issued, v.shares_issued), (0, 0));
}

#[test]
fn unstake_returns_locked_tokens_in_proportion() {
    let mut v = pool(3_000, 1_000, Decimal::one());
    let mut s = Stake { shares: 100, locked: 250 };
    // 30 tokens are 10 shares, a tenth of the position
    s.unstake_validator(&mut v, 30).unwrap();
    assert_eq!(s, Stake { shares: 90, locked: 225 });
    assert_eq!((v.tokens_issued, v.shares_issued), (2_975, 990));
}
