use meta_staking::ledger::Ledger;
use meta_staking::types::{Coin, Config, ConsumerInfo, PendingWithdrawal, ValidatorInfo};

fn s(x: &str) -> String {
    x.to_string()
}

fn config() -> Config {
    Config { admin: s("admin"), denom: s("ustake") }
}

fn consumer(address: &str, available: u128) -> ConsumerInfo {
    ConsumerInfo { address: s(address), available_funds: available, total_staked: 0 }
}

fn record(consumer: &str, validator: &str, total: u128) -> ValidatorInfo {
    ValidatorInfo { address: s(validator), consumer: s(consumer), total_delegated: total }
}

#[test]
fn restore_keeps_every_part() {
    let mut ledger = Ledger::new(s("admin"), s("ustake"));
    ledger.add_consumer(s("c"), Coin::new(s("ustake"), 1000), 5000).unwrap();
    ledger.delegate(&s("c"), s("v"), Coin::new(s("ustake"), 400)).unwrap();
    ledger.withdraw_delegator_reward(&s("c"), s("v")).unwrap();
    let restored = Ledger::from_parts(
        ledger.config().copy(),
        ledger.consumers(),
        ledger.delegations(),
        ledger.pending(),
        ledger.next_id(),
    )
    .unwrap();
    assert_eq!(restored.consumers(), ledger.consumers());
    assert_eq!(restored.delegations(), ledger.delegations());
    assert_eq!(
        restored.pending(),
        vec![PendingWithdrawal { id: 0, consumer: s("c"), validator: s("v") }]
    );
    assert_eq!(restored.next_id(), 1);
}

#[test]
fn restore_rejects_duplicate_consumer() {
    let r = Ledger::from_parts(
        config(),
        vec![consumer("c", 1), consumer("c", 2)],
        vec![],
        vec![],
        0,
    );
    assert!(r.is_none());
}

#[test]
fn restore_rejects_duplicate_delegation() {
    let r = Ledger::from_parts(
        config(),
        vec![consumer("c", 1)],
        vec![record("c", "v", 1), record("c", "v", 2)],
        vec![],
        0,
    );
    assert!(r.is_none());
}

#[test]
fn restore_accepts_zero_record_of_removed_consumer() {
    let r = Ledger::from_parts(config(), vec![consumer("c", 1)], vec![record("gone", "v", 0)], vec![], 0);
    assert!(r.is_some());
    let r = Ledger::from_parts(config(), vec![consumer("c", 1)], vec![record("gone", "v", 5)], vec![], 0);
    assert!(r.is_none());
}

#[test]
fn restore_rejects_funds_beyond_u128() {
    let r = Ledger::from_parts(
        config(),
        vec![consumer("c", u128::MAX)],
        vec![record("c", "v", 1)],
        vec![],
        0,
    );
    assert!(r.is_none());
    let mut ledger = Ledger::from_parts(
        config(),
        vec![consumer("c", u128::MAX - 1)],
        vec![record("c", "v", 1)],
        vec![],
        0,
    )
    .unwrap();
    ledger.undelegate(&s("c"), s("v"), Coin::new(s("ustake"), 1)).unwrap();
    assert_eq!(ledger.consumer(&s("c")).unwrap().available_funds, u128::MAX);
}
