use vstd::prelude::*;

verus! {

/// An amount of one asset.
#[derive(Debug, PartialEq, Eq)]
pub struct Coin {
    pub denom: String,
    pub amount: u128,
}

/// A tenant allowed to delegate part of the custodied pool.
#[derive(Debug, PartialEq, Eq)]
pub struct ConsumerInfo {
    pub address: String,
    /// Funds not delegated to any validator.
    pub available_funds: u128,
    /// Bookkeeping counter set at admission; the engine never changes it.
    pub total_staked: u128,
}

/// What one consumer has delegated to one validator.
#[derive(Debug, PartialEq, Eq)]
pub struct ValidatorInfo {
    /// The validator's address.
    pub address: String,
    /// The delegating consumer's address.
    pub consumer: String,
    pub total_delegated: u128,
}

/// The administrator and the single bonding denomination.
#[derive(Debug, PartialEq, Eq)]
pub struct Config {
    pub admin: String,
    pub denom: String,
}

/// A reward withdrawal that awaits its completion callback.
#[derive(Debug, PartialEq, Eq)]
pub struct PendingWithdrawal {
    pub id: u64,
    pub consumer: String,
    pub validator: String,
}

/// An outbound command for the bonding module or the bank.
#[derive(Debug, PartialEq, Eq)]
pub enum Command {
    Delegate { validator: String, amount: Coin },
    Undelegate { validator: String, amount: Coin },
    WithdrawReward { validator: String, id: u64 },
    Transfer { to: String, amount: Coin },
}

#[derive(Debug, PartialEq, Eq, Structural, Clone, Copy)]
pub enum ContractError {
    IncorrectDenom,
    Unauthorized,
    NoFundsToDelegate,
    NoDelegationsForValidator,
    /// An undelegation larger than the recorded delegation.
    InsufficientDelegation,
    ConsumerAlreadyExists,
    NoConsumer,
    NotEnoughFunds,
    UnknownCallback,
}

impl Coin {
    pub fn new(denom: String, amount: u128) -> (r: Coin)
        ensures
            r.denom == denom,
            r.amount == amount,
    {
        Coin { denom, amount }
    }

    pub fn copy(&self) -> (r: Coin)
        ensures
            r == *self,
    {
        Coin { denom: self.denom.clone(), amount: self.amount }
    }
}

impl ConsumerInfo {
    pub fn copy(&self) -> (r: ConsumerInfo)
        ensures
            r == *self,
    {
        ConsumerInfo {
            address: self.address.clone(),
            available_funds: self.available_funds,
            total_staked: self.total_staked,
        }
    }
}

impl Config {
    pub fn copy(&self) -> (r: Config)
        ensures
            r == *self,
    {
        Config { admin: self.admin.clone(), denom: self.denom.clone() }
    }
}

impl PendingWithdrawal {
    pub fn copy(&self) -> (r: PendingWithdrawal)
        ensures
            r == *self,
    {
        PendingWithdrawal {
            id: self.id,
            consumer: self.consumer.clone(),
            validator: self.validator.clone(),
        }
    }
}

impl ValidatorInfo {
    pub fn copy(&self) -> (r: ValidatorInfo)
        ensures
            r == *self,
    {
        ValidatorInfo {
            address: self.address.clone(),
            consumer: self.consumer.clone(),
            total_delegated: self.total_delegated,
        }
    }
}

} // verus!
