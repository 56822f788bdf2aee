use meta_staking::ledger::Ledger;
use meta_staking::types::{Coin, Command, ConsumerInfo, ContractError, ValidatorInfo};

const DENOM: &str = "ustake";
const CONSUMER: &str = "consumer";
const VALIDATOR: &str = "validator";

fn s(x: &str) -> String {
    x.to_string()
}

fn coin(amount: u128) -> Coin {
    Coin::new(s(DENOM), amount)
}

fn ledger_with_consumer() -> Ledger {
    let mut ledger = Ledger::new(s("admin"), s(DENOM));
    ledger.add_consumer(s(CONSUMER), coin(10000), 100000).unwrap();
    ledger
}

fn available(ledger: &Ledger) -> u128 {
    ledger.consumer(&s(CONSUMER)).unwrap().available_funds
}

fn delegated(ledger: &Ledger, validator: &str) -> u128 {
    ledger.delegation(&s(CONSUMER), &s(validator)).unwrap().total_delegated
}

#[test]
fn proper_initialization() {
    let ledger = Ledger::new(s("creator"), s("earth"));
    assert_eq!(0, ledger.consumers().len());
    assert_eq!(ledger.config().admin, "creator");
    assert_eq!(ledger.config().denom, "earth");
}

#[test]
fn admit_consumer_records_funds() {
    let ledger = ledger_with_consumer();
    let rec = ledger.consumer(&s(CONSUMER)).unwrap();
    assert_eq!(
        rec,
        ConsumerInfo { address: s(CONSUMER), available_funds: 10000, total_staked: 0 }
    );
}

#[test]
fn delegate_moves_funds_to_validator() {
    let mut ledger = ledger_with_consumer();
    let cmd = ledger.delegate(&s(CONSUMER), s(VALIDATOR), coin(4000)).unwrap();
    assert_eq!(cmd, Command::Delegate { validator: s(VALIDATOR), amount: coin(4000) });
    assert_eq!(available(&ledger), 6000);
    assert_eq!(delegated(&ledger, VALIDATOR), 4000);
}

#[test]
fn delegate_twice_adds_up() {
    let mut ledger = ledger_with_consumer();
    ledger.delegate(&s(CONSUMER), s(VALIDATOR), coin(4000)).unwrap();
    ledger.delegate(&s(CONSUMER), s(VALIDATOR), coin(1500)).unwrap();
    assert_eq!(available(&ledger), 4500);
    assert_eq!(delegated(&ledger, VALIDATOR), 5500);
    assert_eq!(ledger.all_delegations(&s(CONSUMER)).len(), 1);
}

#[test]
fn undelegate_returns_funds() {
    let mut ledger = ledger_with_consumer();
    ledger.delegate(&s(CONSUMER), s(VALIDATOR), coin(4000)).unwrap();
    let cmd = ledger.undelegate(&s(CONSUMER), s(VALIDATOR), coin(1000)).unwrap();
    assert_eq!(cmd, Command::Undelegate { validator: s(VALIDATOR), amount: coin(1000) });
    assert_eq!(available(&ledger), 7000);
    assert_eq!(delegated(&ledger, VALIDATOR), 3000);
}

#[test]
fn undelegate_without_delegation_fails() {
    let mut ledger = ledger_with_consumer();
    ledger.delegate(&s(CONSUMER), s(VALIDATOR), coin(4000)).unwrap();
    let before = ledger.consumers();
    let err = ledger.undelegate(&s(CONSUMER), s("other"), coin(1000)).unwrap_err();
    assert_eq!(err, ContractError::NoDelegationsForValidator);
    assert_eq!(ledger.consumers(), before);
    assert_eq!(ledger.delegation(&s(CONSUMER), &s("other")), None);
    assert_eq!(delegated(&ledger, VALIDATOR), 4000);
}

#[test]
fn add_consumer_twice_fails() {
    let mut ledger = ledger_with_consumer();
    let err = ledger.add_consumer(s(CONSUMER), coin(500), 100000).unwrap_err();
    assert_eq!(err, ContractError::ConsumerAlreadyExists);
    assert_eq!(available(&ledger), 10000);
    assert_eq!(ledger.consumers().len(), 1);
}

#[test]
fn delegate_wrong_denom_fails() {
    let mut ledger = ledger_with_consumer();
    let err = ledger
        .delegate(&s(CONSUMER), s(VALIDATOR), Coin::new(s("uatom"), 100))
        .unwrap_err();
    assert_eq!(err, ContractError::IncorrectDenom);
    assert_eq!(available(&ledger), 10000);
    assert_eq!(ledger.delegation(&s(CONSUMER), &s(VALIDATOR)), None);
}

#[test]
fn undelegate_wrong_denom_fails() {
    let mut ledger = ledger_with_consumer();
    ledger.delegate(&s(CONSUMER), s(VALIDATOR), coin(4000)).unwrap();
    let err = ledger
        .undelegate(&s(CONSUMER), s(VALIDATOR), Coin::new(s("uatom"), 100))
        .unwrap_err();
    assert_eq!(err, ContractError::IncorrectDenom);
    assert_eq!(delegated(&ledger, VALIDATOR), 4000);
}

#[test]
fn delegate_by_stranger_is_unauthorized() {
    let mut ledger = ledger_with_consumer();
    let err = ledger.delegate(&s("stranger"), s(VALIDATOR), coin(1)).unwrap_err();
    assert_eq!(err, ContractError::Unauthorized);
    let err = ledger.undelegate(&s("stranger"), s(VALIDATOR), coin(1)).unwrap_err();
    assert_eq!(err, ContractError::Unauthorized);
}

#[test]
fn delegate_beyond_available_fails() {
    let mut ledger = ledger_with_consumer();
    let err = ledger.delegate(&s(CONSUMER), s(VALIDATOR), coin(10001)).unwrap_err();
    assert_eq!(err, ContractError::NoFundsToDelegate);
    assert_eq!(available(&ledger), 10000);
    ledger.delegate(&s(CONSUMER), s(VALIDATOR), coin(10000)).unwrap();
    assert_eq!(available(&ledger), 0);
}

#[test]
fn delegate_nothing_from_empty_budget_fails() {
    let mut ledger = ledger_with_consumer();
    ledger.delegate(&s(CONSUMER), s(VALIDATOR), coin(10000)).unwrap();
    let err = ledger.delegate(&s(CONSUMER), s(VALIDATOR), coin(0)).unwrap_err();
    assert_eq!(err, ContractError::NoFundsToDelegate);
}

#[test]
fn undelegate_more_than_delegated_fails() {
    let mut ledger = ledger_with_consumer();
    ledger.delegate(&s(CONSUMER), s(VALIDATOR), coin(4000)).unwrap();
    let err = ledger.undelegate(&s(CONSUMER), s(VALIDATOR), coin(4001)).unwrap_err();
    assert_eq!(err, ContractError::InsufficientDelegation);
    assert_eq!(available(&ledger), 6000);
    assert_eq!(delegated(&ledger, VALIDATOR), 4000);
}

#[test]
fn add_consumer_needs_more_than_allocation_in_custody() {
    let mut ledger = Ledger::new(s("admin"), s(DENOM));
    let err = ledger.add_consumer(s(CONSUMER), coin(10000), 10000).unwrap_err();
    assert_eq!(err, ContractError::NotEnoughFunds);
    let err = ledger.add_consumer(s(CONSUMER), coin(10000), 9999).unwrap_err();
    assert_eq!(err, ContractError::NotEnoughFunds);
    assert_eq!(ledger.consumer(&s(CONSUMER)), None);
    ledger.add_consumer(s(CONSUMER), coin(10000), 10001).unwrap();
    assert_eq!(available(&ledger), 10000);
}

#[test]
fn remove_consumer_writes_off_delegations() {
    let mut ledger = ledger_with_consumer();
    ledger.add_consumer(s("second"), coin(300), 100000).unwrap();
    ledger.delegate(&s(CONSUMER), s(VALIDATOR), coin(4000)).unwrap();
    ledger.delegate(&s("second"), s(VALIDATOR), coin(200)).unwrap();
    ledger.remove_consumer(&s(CONSUMER)).unwrap();
    assert_eq!(ledger.consumer(&s(CONSUMER)), None);
    assert_eq!(delegated(&ledger, VALIDATOR), 0);
    let second = ledger.delegation(&s("second"), &s(VALIDATOR)).unwrap();
    assert_eq!(second.total_delegated, 200);
    assert_eq!(ledger.consumers().len(), 1);
    let err = ledger.remove_consumer(&s(CONSUMER)).unwrap_err();
    assert_eq!(err, ContractError::NoConsumer);
    ledger.add_consumer(s(CONSUMER), coin(50), 100000).unwrap();
    assert_eq!(available(&ledger), 50);
}

#[test]
fn funds_are_conserved_across_operations() {
    let mut ledger = ledger_with_consumer();
    ledger.delegate(&s(CONSUMER), s("v1"), coin(4000)).unwrap();
    ledger.delegate(&s(CONSUMER), s("v2"), coin(2500)).unwrap();
    ledger.undelegate(&s(CONSUMER), s("v1"), coin(1000)).unwrap();
    let _ = ledger.undelegate(&s(CONSUMER), s("v3"), coin(1000));
    let _ = ledger.delegate(&s(CONSUMER), s("v2"), coin(99999));
    let total: u128 = ledger
        .all_delegations(&s(CONSUMER))
        .iter()
        .map(|d| d.total_delegated)
        .sum();
    assert_eq!(available(&ledger) + total, 10000);
    assert_eq!(ledger.all_validators(&s(CONSUMER)), vec![s("v1"), s("v2")]);
}

#[test]
fn query_without_mutation_is_stable() {
    let mut ledger = ledger_with_consumer();
    ledger.delegate(&s(CONSUMER), s(VALIDATOR), coin(4000)).unwrap();
    let first = ledger.consumer(&s(CONSUMER));
    let second = ledger.consumer(&s(CONSUMER));
    assert_eq!(first, second);
    assert_eq!(ledger.consumer(&s("nobody")), None);
}

#[test]
fn delegate_then_undelegate_round_trips() {
    let mut ledger = ledger_with_consumer();
    ledger.delegate(&s(CONSUMER), s(VALIDATOR), coin(1000)).unwrap();
    ledger.delegate(&s(CONSUMER), s(VALIDATOR), coin(2500)).unwrap();
    ledger.undelegate(&s(CONSUMER), s(VALIDATOR), coin(2500)).unwrap();
    assert_eq!(available(&ledger), 9000);
    assert_eq!(delegated(&ledger, VALIDATOR), 1000);
    ledger.delegate(&s(CONSUMER), s("fresh"), coin(700)).unwrap();
    ledger.undelegate(&s(CONSUMER), s("fresh"), coin(700)).unwrap();
    assert_eq!(available(&ledger), 9000);
    assert_eq!(
        ledger.delegation(&s(CONSUMER), &s("fresh")),
        Some(ValidatorInfo { address: s("fresh"), consumer: s(CONSUMER), total_delegated: 0 })
    );
}

#[test]
fn reward_withdrawal_is_forwarded_once() {
    let mut ledger = ledger_with_consumer();
    let cmd = ledger.withdraw_delegator_reward(&s(CONSUMER), s(VALIDATOR)).unwrap();
    assert_eq!(cmd, Command::WithdrawReward { validator: s(VALIDATOR), id: 0 });
    let cmd = ledger.withdraw_delegator_reward(&s(CONSUMER), s("v2")).unwrap();
    assert_eq!(cmd, Command::WithdrawReward { validator: s("v2"), id: 1 });
    let cmd = ledger.forward_rewards_to_consumer(1, 42).unwrap();
    assert_eq!(cmd, Command::Transfer { to: s(CONSUMER), amount: coin(42) });
    let err = ledger.forward_rewards_to_consumer(1, 42).unwrap_err();
    assert_eq!(err, ContractError::UnknownCallback);
    let cmd = ledger.forward_rewards_to_consumer(0, 7).unwrap();
    assert_eq!(cmd, Command::Transfer { to: s(CONSUMER), amount: coin(7) });
}

#[test]
fn reward_withdrawal_by_stranger_is_unauthorized() {
    let mut ledger = ledger_with_consumer();
    let err = ledger.withdraw_delegator_reward(&s("stranger"), s(VALIDATOR)).unwrap_err();
    assert_eq!(err, ContractError::Unauthorized);
    let err = ledger.forward_rewards_to_consumer(0, 1).unwrap_err();
    assert_eq!(err, ContractError::UnknownCallback);
}
