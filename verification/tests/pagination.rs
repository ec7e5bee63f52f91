use mesh_provider::contract::build_response;
use mesh_provider::contract::list_validators;
use mesh_provider::contract::query;
use mesh_provider::ledger::Ledger;
use mesh_provider::math::Decimal;
use mesh_provider::msg::QueryMsg;
use mesh_provider::msg::QueryResponse;
use mesh_provider::order::compare;
use mesh_provider::order::compare_bytes;
use mesh_provider::order::comes_before;
use mesh_provider::order::same;
use mesh_provider::order::Rank;
use mesh_provider::state::Addr;
use mesh_provider::state::Config;
use mesh_provider::state::ConsumerInfo;
use mesh_provider::state::ValStatus;
use mesh_provider::state::Validator;

fn ledger_with(n: usize) -> Ledger {
    let mut ledger = Ledger::new(Config {
        consumer: ConsumerInfo { connection_id: "1".to_string() },
        slasher: None,
        lockup: Addr::unchecked("lockup_addr".to_string()),
        unbonding_period: 1209600,
    });
    // registered in descending order; the ledger keeps them ascending
    for i in (0..n).rev() {
        assert!(ledger.add_validator(format!("val{:03}", i), Decimal::one()));
    }
    ledger
}

fn addresses(ledger: &Ledger, start_after: Option<&str>, limit: Option<u32>) -> Vec<String> {
    list_validators(ledger, start_after.map(|s| s.to_string()), limit)
        .unwrap()
        .validators
        .into_iter()
        .map(|v| v.address)
        .collect()
}

#[test]
fn list_with_limit_zero_is_empty() {
    let ledger = ledger_with(5);
    assert!(addresses(&ledger, None, Some(0)).is_empty());
    assert!(addresses(&ledger, Some("val001"), Some(0)).is_empty());
}

#[test]
fn list_clamps_the_limit_to_one_hundred() {
    let ledger = ledger_with(120);
    let all = addresses(&ledger, None, Some(101));
    assert_eq!(all.len(), 100);
    assert_eq!(all[0], "val000");
    assert_eq!(all[99], "val099");
    assert_eq!(addresses(&ledger, None, Some(u32::MAX)).len(), 100);
    assert_eq!(addresses(&ledger, None, Some(100)).len(), 100);
    assert_eq!(addresses(&ledger, None, Some(99)).len(), 99);
}

#[test]
fn list_defaults_to_thirty() {
    let ledger = ledger_with(40);
    let page = addresses(&ledger, None, None);
    assert_eq!(page.len(), 30);
    assert_eq!(page[29], "val029");
    let rest = addresses(&ledger, Some("val029"), None);
    assert_eq!(rest.len(), 10);
    assert_eq!(rest[0], "val030");
    assert_eq!(rest[9], "val039");
}

#[test]
fn list_starts_after_the_given_address() {
    let ledger = ledger_with(6);
    assert_eq!(addresses(&ledger, Some("val002"), Some(2)), vec!["val003", "val004"]);
    // the bound need not be a registered address
    assert_eq!(addresses(&ledger, Some("val0025"), Some(10)), vec!["val003", "val004", "val005"]);
    assert_eq!(addresses(&ledger, Some(""), Some(1)), vec!["val000"]);
    assert!(addresses(&ledger, Some("val005"), None).is_empty());
    assert!(addresses(&ledger, Some("zzz"), None).is_empty());
    assert!(addresses(&ledger_with(0), None, None).is_empty());
}

#[test]
fn list_through_query_shows_value_status_and_multiplier() {
    let mut ledger = ledger_with(2);
    ledger
        .add_stake(Addr::unchecked("A".to_string()), "val001", 400)
        .unwrap();
    ledger.slash("val001", Decimal::percent(25), true).unwrap();
    let answer = query(&ledger, QueryMsg::ListValidators { start_after: None, limit: None }).unwrap();
    match answer {
        QueryResponse::ListValidators(list) => {
            assert_eq!(list.validators.len(), 2);
            assert_eq!(list.validators[0].address, "val000");
            assert_eq!(list.validators[0].tokens, 0);
            assert_eq!(list.validators[0].status, ValStatus::Active);
            assert_eq!(list.validators[1].address, "val001");
            assert_eq!(list.validators[1].tokens, 300);
            assert_eq!(list.validators[1].status, ValStatus::Tombstoned);
            assert_eq!(list.validators[1].multiplier, Decimal::one());
        }
        other => panic!("unexpected answer {:?}", other),
    }
}

#[test]
fn build_response_reports_the_slashed_value() {
    let val = Validator {
        multiplier: Decimal::percent(150),
        tokens_issued: 1_001,
        shares_issued: 1_500,
        slash_ratio: Decimal::percent(90),
        status: ValStatus::Removed,
    };
    let response = build_response(("cosmosvaloper1".to_string(), val));
    assert_eq!(response.address, "cosmosvaloper1");
    assert_eq!(response.tokens, 900);
    assert_eq!(response.status, ValStatus::Removed);
    assert_eq!(response.multiplier, Decimal::percent(150));
}

#[test]
fn add_validator_refuses_a_taken_address() {
    let mut ledger = ledger_with(3);
    let before = ledger.clone();
    assert!(!ledger.add_validator("val001".to_string(), Decimal::percent(200)));
    assert_eq!(ledger, before);
    assert_eq!(ledger.validator("val001").unwrap(), Validator::new(Decimal::one()));
    assert_eq!(ledger.validator("val009"), None);
    assert_eq!(ledger.find("val002"), Some(2));
    assert_eq!(ledger.find("val003"), None);
}

#[test]
fn keys_are_ordered_by_their_bytes() {
    assert_eq!(compare("a", "b"), Rank::Before);
    assert_eq!(compare("b", "a"), Rank::After);
    assert_eq!(compare("abc", "abc"), Rank::Same);
    assert_eq!(compare("", ""), Rank::Same);
    assert_eq!(compare("", "a"), Rank::Before);
    assert_eq!(compare("ab", "abc"), Rank::Before);
    assert_eq!(compare("abd", "abc"), Rank::After);
    assert_eq!(compare("Z", "a"), Rank::Before);
    assert_eq!(compare("z", "é"), Rank::Before);
    assert_eq!(compare_bytes(&[1, 2, 255], &[1, 3]), Rank::Before);
    assert_eq!(compare_bytes(&[2], &[1, 200]), Rank::After);
    assert!(comes_before("val1", "val10"));
    assert!(!comes_before("val10", "val1"));
    assert!(!comes_before("val1", "val1"));
    assert!(same("val1", "val1"));
    assert!(!same("val1", "val2"));
}

fn entry(address: &str, val: Validator, positions: Vec<(&str, u128, u128)>) -> mesh_provider::ledger::ValidatorEntry {
    mesh_provider::ledger::ValidatorEntry {
        address: address.to_string(),
        validator: val,
        positions: positions
            .into_iter()
            .map(|(d, shares, locked)| mesh_provider::ledger::Position {
                delegator: Addr::unchecked(d.to_string()),
                stake: mesh_provider::state::Stake { shares, locked },
            })
            .collect(),
    }
}

fn pool(tokens: u128, shares: u128) -> Validator {
    Validator {
        multiplier: Decimal::one(),
        tokens_issued: tokens,
        shares_issued: shares,
        slash_ratio: Decimal::percent(90),
        status: ValStatus::Active,
    }
}

fn config() -> Config {
    Config {
        consumer: ConsumerInfo { connection_id: "1".to_string() },
        slasher: None,
        lockup: Addr::unchecked("lockup_addr".to_string()),
        unbonding_period: 1209600,
    }
}

#[test]
fn restore_accepts_records_that_agree() {
    let entries = vec![
        entry("v1", pool(100, 90), vec![("A", 40, 50), ("B", 50, 45)]),
        entry("v2", pool(0, 0), vec![]),
    ];
    let ledger = Ledger::restore(config(), entries.clone()).unwrap();
    assert!(ledger.is_wf());
    assert_eq!(ledger.validators, entries);
    assert_eq!(ledger.config, config());
    assert_eq!(
        ledger.position(&Addr::unchecked("B".to_string()), "v1"),
        Some(mesh_provider::state::Stake { shares: 50, locked: 45 })
    );
    assert!(Ledger::restore(config(), vec![]).is_some());
}

#[test]
fn restore_refuses_records_that_disagree() {
    // addresses out of order, or twice
    let unordered = vec![entry("v2", pool(0, 0), vec![]), entry("v1", pool(0, 0), vec![])];
    assert_eq!(Ledger::restore(config(), unordered), None);
    let twice = vec![entry("v1", pool(0, 0), vec![]), entry("v1", pool(0, 0), vec![])];
    assert_eq!(Ledger::restore(config(), twice), None);
    // shares that do not add up
    let short = vec![entry("v1", pool(100, 91), vec![("A", 40, 50), ("B", 50, 45)])];
    assert_eq!(Ledger::restore(config(), short), None);
    let long = vec![entry("v1", pool(100, 89), vec![("A", 40, 50), ("B", 50, 45)])];
    assert_eq!(Ledger::restore(config(), long), None);
    let overflowing = vec![entry("v1", pool(5, 4), vec![("A", u128::MAX, 1), ("B", 5, 1)])];
    assert_eq!(Ledger::restore(config(), overflowing), None);
    // more tokens locked than were staked
    let locked = vec![entry("v1", pool(94, 90), vec![("A", 40, 50), ("B", 50, 45)])];
    assert_eq!(Ledger::restore(config(), locked), None);
    // a delegator with two positions, a position without shares
    let double = vec![entry("v1", pool(100, 90), vec![("A", 40, 50), ("A", 50, 45)])];
    assert_eq!(Ledger::restore(config(), double), None);
    let empty = vec![entry("v1", pool(100, 90), vec![("A", 90, 50), ("B", 0, 45)])];
    assert_eq!(Ledger::restore(config(), empty), None);
    // a ratio above one
    let mut raised = pool(100, 90);
    raised.slash_ratio = Decimal::percent(101);
    assert_eq!(Ledger::restore(config(), vec![entry("v1", raised, vec![("A", 90, 50)])]), None);
}
