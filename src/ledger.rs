use vstd::prelude::*;
use crate::types::{Coin, Command, Config, ConsumerInfo, ContractError, PendingWithdrawal, ValidatorInfo};

verus! {

/// What record `d` counts towards consumer `c`'s delegated total.
pub open spec fn share(d: ValidatorInfo, c: Seq<char>) -> int {
    if d.consumer@ == c {
        d.total_delegated as int
    } else {
        0
    }
}

/// Sum of `total_delegated` over the records of `ds` that belong to consumer `c`.
pub open spec fn delegated_by(ds: Seq<ValidatorInfo>, c: Seq<char>) -> int
    decreases ds.len(),
{
    if ds.len() == 0 {
        0
    } else {
        delegated_by(ds.drop_last(), c) + share(ds.last(), c)
    }
}

pub open spec fn with_available(c: ConsumerInfo, v: u128) -> ConsumerInfo {
    ConsumerInfo { address: c.address, available_funds: v, total_staked: c.total_staked }
}

pub open spec fn with_total(d: ValidatorInfo, v: u128) -> ValidatorInfo {
    ValidatorInfo { address: d.address, consumer: d.consumer, total_delegated: v }
}

proof fn lemma_delegated_update(ds: Seq<ValidatorInfo>, j: int, v: ValidatorInfo, c: Seq<char>)
    requires
        0 <= j < ds.len(),
    ensures
        delegated_by(ds.update(j, v), c) == delegated_by(ds, c) - share(ds[j], c) + share(v, c),
    decreases ds.len(),
{
    let u = ds.update(j, v);
    if j == ds.len() - 1 {
        assert(u.drop_last() =~= ds.drop_last());
    } else {
        assert(u.drop_last() =~= ds.drop_last().update(j, v));
        lemma_delegated_update(ds.drop_last(), j, v, c);
    }
}

proof fn lemma_delegated_push(ds: Seq<ValidatorInfo>, v: ValidatorInfo, c: Seq<char>)
    ensures
        delegated_by(ds.push(v), c) == delegated_by(ds, c) + share(v, c),
{
    assert(ds.push(v).drop_last() =~= ds);
}

/// A delegated total is never negative.
pub proof fn lemma_delegated_nonneg(ds: Seq<ValidatorInfo>, c: Seq<char>)
    ensures
        delegated_by(ds, c) >= 0,
    decreases ds.len(),
{
    if ds.len() > 0 {
        lemma_delegated_nonneg(ds.drop_last(), c);
    }
}

/// One record never counts for more than the consumer's whole delegated total.
pub proof fn lemma_share_le(ds: Seq<ValidatorInfo>, j: int, c: Seq<char>)
    requires
        0 <= j < ds.len(),
    ensures
        share(ds[j], c) <= delegated_by(ds, c),
    decreases ds.len(),
{
    lemma_delegated_nonneg(ds.drop_last(), c);
    if j < ds.len() - 1 {
        lemma_share_le(ds.drop_last(), j, c);
    }
}

proof fn lemma_delegated_zero(ds: Seq<ValidatorInfo>, c: Seq<char>)
    requires
        forall|k: int| 0 <= k < ds.len() ==> share(#[trigger] ds[k], c) == 0,
    ensures
        delegated_by(ds, c) == 0,
    decreases ds.len(),
{
    if ds.len() > 0 {
        assert forall|k: int| 0 <= k < ds.drop_last().len() implies share(
            #[trigger] ds.drop_last()[k],
            c,
        ) == 0 by {
            assert(ds.drop_last()[k] == ds[k]);
        }
        lemma_delegated_zero(ds.drop_last(), c);
    }
}

/// `ds` with every record of consumer `a` set to zero; keys and other records stay.
pub open spec fn written_off(ds: Seq<ValidatorInfo>, a: Seq<char>) -> Seq<ValidatorInfo> {
    ds.map_values(|d: ValidatorInfo| if d.consumer@ == a { with_total(d, 0) } else { d })
}

fn write_off(ds: &mut Vec<ValidatorInfo>, a: &String)
    ensures
        final(ds)@ == written_off(old(ds)@, a@),
        delegated_by(final(ds)@, a@) == 0,
        forall|b: Seq<char>| b != a@ ==> #[trigger] delegated_by(final(ds)@, b) == delegated_by(old(ds)@, b),
{
    let ghost ds0 = ds@;
    let mut j: usize = 0;
    while j < ds.len()
        invariant
            ds@.len() == ds0.len(),
            j <= ds0.len(),
            forall|k: int| 0 <= k < j ==> #[trigger] ds@[k] == written_off(ds0, a@)[k],
            forall|k: int| j <= k < ds0.len() ==> #[trigger] ds@[k] == ds0[k],
            forall|b: Seq<char>| b != a@ ==> #[trigger] delegated_by(ds@, b) == delegated_by(ds0, b),
        decreases ds0.len() - j,
    {
        if ds[j].consumer == *a {
            let rec = ValidatorInfo {
                address: ds[j].address.clone(),
                consumer: ds[j].consumer.clone(),
                total_delegated: 0,
            };
            let ghost before = ds@;
            ds[j] = rec;
            proof {
                assert forall|b: Seq<char>| b != a@ implies #[trigger] delegated_by(ds@, b) == delegated_by(ds0, b) by {
                    lemma_delegated_update(before, j as int, rec, b);
                }
            }
        }
        j += 1;
    }
    proof {
        assert(ds@ =~= written_off(ds0, a@));
        assert forall|k: int| 0 <= k < ds@.len() implies share(#[trigger] ds@[k], a@) == 0 by {
            assert(ds@[k] == written_off(ds0, a@)[k]);
        }
        lemma_delegated_zero(ds@, a@);
    }
}

/// The records of `ds` that belong to consumer `c`, in order.
pub open spec fn delegations_of(ds: Seq<ValidatorInfo>, c: Seq<char>) -> Seq<ValidatorInfo>
    decreases ds.len(),
{
    if ds.len() == 0 {
        Seq::empty()
    } else if ds.last().consumer@ == c {
        delegations_of(ds.drop_last(), c).push(ds.last())
    } else {
        delegations_of(ds.drop_last(), c)
    }
}

/// The validator addresses of `delegations_of(ds, c)`, in order.
pub open spec fn validators_of(ds: Seq<ValidatorInfo>, c: Seq<char>) -> Seq<String>
    decreases ds.len(),
{
    if ds.len() == 0 {
        Seq::empty()
    } else if ds.last().consumer@ == c {
        validators_of(ds.drop_last(), c).push(ds.last().address)
    } else {
        validators_of(ds.drop_last(), c)
    }
}

/// Some record of `cs` has address `a`.
pub open spec fn registered(cs: Seq<ConsumerInfo>, a: Seq<char>) -> bool {
    exists|i: int| 0 <= i < cs.len() && (#[trigger] cs[i]).address@ == a
}

/// Parts that make a valid ledger: unique keys, delegations of unregistered
/// addresses all at zero, and every consumer's funds fit in a `u128`.
pub open spec fn restorable(cs: Seq<ConsumerInfo>, ds: Seq<ValidatorInfo>) -> bool {
    &&& forall|i: int, j: int|
        0 <= i < j < cs.len() ==> (#[trigger] cs[i]).address@ != (#[trigger] cs[j]).address@
    &&& forall|i: int, j: int|
        0 <= i < j < ds.len() ==> !((#[trigger] ds[i]).consumer@ == (#[trigger] ds[j]).consumer@
            && ds[i].address@ == ds[j].address@)
    &&& forall|k: int|
        0 <= k < ds.len() && !registered(cs, (#[trigger] ds[k]).consumer@) ==> ds[k].total_delegated
            == 0
    &&& forall|i: int|
        0 <= i < cs.len() ==> (#[trigger] cs[i]).available_funds + delegated_by(ds, cs[i].address@)
            <= u128::MAX
}

/// The position of the record of `cs` with address `a`.
pub open spec fn position_of(cs: Seq<ConsumerInfo>, a: Seq<char>) -> int {
    choose|i: int| 0 <= i < cs.len() && (#[trigger] cs[i]).address@ == a
}

/// The funds admitted to each consumer of restored parts.
pub open spec fn admitted_of(cs: Seq<ConsumerInfo>, ds: Seq<ValidatorInfo>) -> Map<Seq<char>, nat> {
    Map::new(
        |a: Seq<char>| registered(cs, a),
        |a: Seq<char>|
            (cs[position_of(cs, a)].available_funds + delegated_by(ds, a)) as nat,
    )
}

proof fn lemma_prefix_le(ds: Seq<ValidatorInfo>, m: int, c: Seq<char>)
    requires
        0 <= m <= ds.len(),
    ensures
        delegated_by(ds.take(m), c) <= delegated_by(ds, c),
    decreases ds.len(),
{
    if m < ds.len() {
        assert(ds.drop_last().take(m) =~= ds.take(m));
        lemma_prefix_le(ds.drop_last(), m, c);
    } else {
        assert(ds.take(m) =~= ds);
    }
}

fn position(cs: &Vec<ConsumerInfo>, a: &String) -> (r: Option<usize>)
    ensures
        match r {
            Some(i) => i < cs@.len() && cs@[i as int].address@ == a@,
            None => !registered(cs@, a@),
        },
{
    let mut i: usize = 0;
    while i < cs.len()
        invariant
            i <= cs@.len(),
            forall|k: int| 0 <= k < i ==> (#[trigger] cs@[k]).address@ != a@,
        decreases cs@.len() - i,
    {
        if cs[i].address == *a {
            return Some(i);
        }
        i += 1;
    }
    None
}

/// The ledger of consumers, their delegations and the reward withdrawals in flight.
pub struct Ledger {
    config: Config,
    consumers: Vec<ConsumerInfo>,
    delegations: Vec<ValidatorInfo>,
    pending: Vec<PendingWithdrawal>,
    next_id: u64,
    /// Funds admitted to each registered consumer.
    admitted: Ghost<Map<Seq<char>, nat>>,
}

impl Ledger {
    pub closed spec fn config_view(&self) -> Config {
        self.config
    }

    pub closed spec fn consumers_view(&self) -> Seq<ConsumerInfo> {
        self.consumers@
    }

    pub closed spec fn delegations_view(&self) -> Seq<ValidatorInfo> {
        self.delegations@
    }

    pub closed spec fn pending_view(&self) -> Seq<PendingWithdrawal> {
        self.pending@
    }

    pub closed spec fn next_id_view(&self) -> u64 {
        self.next_id
    }

    pub closed spec fn admitted(&self) -> Map<Seq<char>, nat> {
        self.admitted@
    }

    pub open spec fn is_consumer(&self, a: Seq<char>) -> bool {
        exists|i: int|
            0 <= i < self.consumers_view().len() && (#[trigger] self.consumers_view()[i]).address@
                == a
    }

    pub open spec fn consumer_pos(&self, a: Seq<char>) -> int {
        choose|i: int|
            0 <= i < self.consumers_view().len() && (#[trigger] self.consumers_view()[i]).address@
                == a
    }

    pub open spec fn consumer_of(&self, a: Seq<char>) -> ConsumerInfo {
        self.consumers_view()[self.consumer_pos(a)]
    }

    pub open spec fn has_delegation(&self, c: Seq<char>, v: Seq<char>) -> bool {
        exists|j: int|
            0 <= j < self.delegations_view().len() && (#[trigger] self.delegations_view()[j]).consumer@
                == c && self.delegations_view()[j].address@ == v
    }

    pub open spec fn delegation_pos(&self, c: Seq<char>, v: Seq<char>) -> int {
        choose|j: int|
            0 <= j < self.delegations_view().len() && (#[trigger] self.delegations_view()[j]).consumer@
                == c && self.delegations_view()[j].address@ == v
    }

    /// What consumer `c` has on record with validator `v`; zero where there is no record.
    pub open spec fn delegated_amount(&self, c: Seq<char>, v: Seq<char>) -> int {
        if self.has_delegation(c, v) {
            self.delegations_view()[self.delegation_pos(c, v)].total_delegated as int
        } else {
            0
        }
    }

    /// Keys are unique, and each registered consumer's available funds plus
    /// everything it has delegated equal the funds admitted to it.
    pub open spec fn wf(&self) -> bool {
        let cs = self.consumers_view();
        let ds = self.delegations_view();
        &&& forall|i: int, j: int|
            0 <= i < j < cs.len() ==> (#[trigger] cs[i]).address@ != (#[trigger] cs[j]).address@
        &&& forall|i: int, j: int|
            0 <= i < j < ds.len() ==> !((#[trigger] ds[i]).consumer@ == (#[trigger] ds[j]).consumer@
                && ds[i].address@ == ds[j].address@)
        &&& forall|i: int|
            0 <= i < cs.len() ==> self.admitted().contains_key((#[trigger] cs[i]).address@)
                && cs[i].available_funds + delegated_by(ds, cs[i].address@)
                == self.admitted()[cs[i].address@]
        &&& forall|a: Seq<char>| !self.is_consumer(a) ==> #[trigger] delegated_by(ds, a) == 0
        &&& forall|a: Seq<char>| #[trigger]
            self.admitted().contains_key(a) ==> self.admitted()[a] <= u128::MAX
    }

    /// The error that `delegate` reports, if any.
    pub open spec fn delegate_error(&self, sender: Seq<char>, amount: Coin) -> Option<ContractError> {
        if amount.denom@ != self.config_view().denom@ {
            Some(ContractError::IncorrectDenom)
        } else if !self.is_consumer(sender) {
            Some(ContractError::Unauthorized)
        } else if !(self.consumer_of(sender).available_funds + amount.amount
            > self.consumer_of(sender).total_staked) || amount.amount
            > self.consumer_of(sender).available_funds {
            Some(ContractError::NoFundsToDelegate)
        } else {
            None
        }
    }

    /// The ledger after `sender` delegated `amount` to `validator`.
    pub open spec fn delegate_post(
        old: Ledger,
        new: Ledger,
        sender: Seq<char>,
        validator: String,
        amount: u128,
    ) -> bool {
        let i = old.consumer_pos(sender);
        let rec = old.consumers_view()[i];
        let ds = old.delegations_view();
        &&& new.config_view() == old.config_view()
        &&& new.pending_view() == old.pending_view()
        &&& new.next_id_view() == old.next_id_view()
        &&& new.admitted() == old.admitted()
        &&& new.consumers_view() == old.consumers_view().update(
            i,
            with_available(rec, (rec.available_funds - amount) as u128),
        )
        &&& if old.has_delegation(sender, validator@) {
            let j = old.delegation_pos(sender, validator@);
            new.delegations_view() == ds.update(
                j,
                with_total(ds[j], (ds[j].total_delegated + amount) as u128),
            )
        } else {
            new.delegations_view() == ds.push(
                ValidatorInfo { address: validator, consumer: rec.address, total_delegated: amount },
            )
        }
    }

    /// A ledger with no consumers.
    pub fn new(admin: String, denom: String) -> (r: Ledger)
        ensures
            r.wf(),
            r.config_view().admin == admin,
            r.config_view().denom == denom,
            r.consumers_view().len() == 0,
            r.delegations_view().len() == 0,
            r.pending_view().len() == 0,
            r.admitted() == Map::<Seq<char>, nat>::empty(),
    {
        Ledger {
            config: Config { admin, denom },
            consumers: Vec::new(),
            delegations: Vec::new(),
            pending: Vec::new(),
            next_id: 0,
            admitted: Ghost(Map::empty()),
        }
    }

    pub fn config(&self) -> (r: &Config)
        ensures
            *r == self.config_view(),
    {
        &self.config
    }

    fn find_consumer(&self, address: &String) -> (r: Option<usize>)
        requires
            self.wf(),
        ensures
            match r {
                Some(i) => i == self.consumer_pos(address@) && self.is_consumer(address@),
                None => !self.is_consumer(address@),
            },
    {
        let mut i: usize = 0;
        while i < self.consumers.len()
            invariant
                self.wf(),
                i <= self.consumers@.len(),
                forall|k: int| 0 <= k < i ==> (#[trigger] self.consumers@[k]).address@ != address@,
            decreases self.consumers@.len() - i,
        {
            if self.consumers[i].address == *address {
                proof {
                    let p = self.consumer_pos(address@);
                    assert(self.consumers_view()[i as int].address@ == address@);
                    assert(self.is_consumer(address@));
                    assert(0 <= p < self.consumers_view().len() && self.consumers_view()[p].address@ == address@);
                    assert(p == i) by {
                        if p < i {
                            assert(self.consumers_view()[p].address@ != self.consumers_view()[i as int].address@);
                        } else if p > i {
                            assert(self.consumers_view()[i as int].address@ != self.consumers_view()[p].address@);
                        }
                    }
                }
                return Some(i);
            }
            i += 1;
        }
        None
    }

    fn find_delegation(&self, consumer: &String, validator: &String) -> (r: Option<usize>)
        requires
            self.wf(),
        ensures
            match r {
                Some(j) => j == self.delegation_pos(consumer@, validator@) && self.has_delegation(
                    consumer@,
                    validator@,
                ),
                None => !self.has_delegation(consumer@, validator@),
            },
    {
        let mut j: usize = 0;
        while j < self.delegations.len()
            invariant
                self.wf(),
                j <= self.delegations@.len(),
                forall|k: int|
                    0 <= k < j ==> !((#[trigger] self.delegations@[k]).consumer@ == consumer@
                        && self.delegations@[k].address@ == validator@),
            decreases self.delegations@.len() - j,
        {
            if self.delegations[j].consumer == *consumer && self.delegations[j].address == *validator {
                proof {
                    let p = self.delegation_pos(consumer@, validator@);
                    let ds = self.delegations_view();
                    assert(ds[j as int].consumer@ == consumer@ && ds[j as int].address@ == validator@);
                    assert(self.has_delegation(consumer@, validator@));
                    assert(0 <= p < ds.len() && ds[p].consumer@ == consumer@ && ds[p].address@ == validator@);
                    assert(p == j) by {
                        if p < j {
                            assert(!(ds[p].consumer@ == ds[j as int].consumer@ && ds[p].address@ == ds[j as int].address@));
                        } else if p > j {
                            assert(!(ds[j as int].consumer@ == ds[p].consumer@ && ds[j as int].address@ == ds[p].address@));
                        }
                    }
                }
                return Some(j);
            }
            j += 1;
        }
        None
    }

    /// `sender` delegates `amount` to `validator`; on success the command for
    /// the bonding module is returned.
    pub fn delegate(&mut self, sender: &String, validator: String, amount: Coin) -> (r: Result<
        Command,
        ContractError,
    >)
        requires
            old(self).wf(),
        ensures
            final(self).wf(),
            match r {
                Ok(cmd) => old(self).delegate_error(sender@, amount) is None && Ledger::delegate_post(
                    *old(self),
                    *final(self),
                    sender@,
                    validator,
                    amount.amount,
                ) && cmd == (Command::Delegate { validator, amount })
                    && final(self).is_consumer(sender@)
                    && final(self).consumer_of(sender@).available_funds
                        == old(self).consumer_of(sender@).available_funds - amount.amount
                    && final(self).delegated_amount(sender@, validator@)
                        == old(self).delegated_amount(sender@, validator@) + amount.amount,
                Err(e) => old(self).delegate_error(sender@, amount) == Some(e) && *final(self) == *old(self),
            },
    {
        if amount.denom != self.config.denom {
            return Err(ContractError::IncorrectDenom);
        }
        let i = match self.find_consumer(sender) {
            Some(i) => i,
            None => { return Err(ContractError::Unauthorized); },
        };
        let available = self.consumers[i].available_funds;
        let staked = self.consumers[i].total_staked;
        if amount.amount > available || (staked >= amount.amount && staked - amount.amount
            >= available) {
            return Err(ContractError::NoFundsToDelegate);
        }
        let ghost s0 = *self;
        let ghost ds0 = self.delegations@;
        let ghost c = sender@;
        let ghost amt = amount.amount as int;
        let ghost mut jpos: int = ds0.len() as int;
        match self.find_delegation(sender, &validator) {
            Some(j) => {
                let t = self.delegations[j].total_delegated;
                proof {
                    lemma_share_le(ds0, j as int, c);
                    jpos = j as int;
                }
                let rec = ValidatorInfo {
                    address: self.delegations[j].address.clone(),
                    consumer: self.delegations[j].consumer.clone(),
                    total_delegated: t + amount.amount,
                };
                self.delegations[j] = rec;
                proof {
                    assert forall|a: Seq<char>|
                        #[trigger] delegated_by(self.delegations@, a) == delegated_by(ds0, a) + (
                        if a == c {
                            amt
                        } else {
                            0
                        }) by {
                        lemma_delegated_update(ds0, j as int, rec, a);
                    }
                }
            },
            None => {
                let rec = ValidatorInfo {
                    address: validator.clone(),
                    consumer: self.consumers[i].address.clone(),
                    total_delegated: amount.amount,
                };
                self.delegations.push(rec);
                proof {
                    assert forall|a: Seq<char>|
                        #[trigger] delegated_by(self.delegations@, a) == delegated_by(ds0, a) + (
                        if a == c {
                            amt
                        } else {
                            0
                        }) by {
                        lemma_delegated_push(ds0, rec, a);
                    }
                }
            },
        }
        let crec = ConsumerInfo {
            address: self.consumers[i].address.clone(),
            available_funds: available - amount.amount,
            total_staked: staked,
        };
        self.consumers[i] = crec;
        proof {
            let cs = self.consumers_view();
            assert(forall|k: int| 0 <= k < cs.len() ==> (#[trigger] cs[k]).address@ == s0.consumers_view()[k].address@);
            assert forall|a: Seq<char>| self.is_consumer(a) == s0.is_consumer(a) by {
                if s0.is_consumer(a) {
                    let k = s0.consumer_pos(a);
                    assert(cs[k].address@ == a);
                }
                if self.is_consumer(a) {
                    let k = choose|k: int| 0 <= k < cs.len() && (#[trigger] cs[k]).address@ == a;
                    assert(s0.consumers_view()[k].address@ == a);
                }
            }
            assert(s0.consumers_view()[i as int].address@ == c);
            assert(self.wf());
            lemma_consumer_pos(*self, c, i as int);
            lemma_delegation_pos(*self, c, validator@, jpos);
        }
        Ok(Command::Delegate { validator, amount })
    }
    /// The error that `undelegate` reports, if any.
    pub open spec fn undelegate_error(&self, sender: Seq<char>, validator: Seq<char>, amount: Coin) -> Option<ContractError> {
        if amount.denom@ != self.config_view().denom@ {
            Some(ContractError::IncorrectDenom)
        } else if !self.is_consumer(sender) {
            Some(ContractError::Unauthorized)
        } else if !self.has_delegation(sender, validator) {
            Some(ContractError::NoDelegationsForValidator)
        } else if self.delegated_amount(sender, validator) < amount.amount {
            Some(ContractError::InsufficientDelegation)
        } else {
            None
        }
    }

    /// The ledger after `sender` took `amount` back from `validator`.
    pub open spec fn undelegate_post(
        old: Ledger,
        new: Ledger,
        sender: Seq<char>,
        validator: Seq<char>,
        amount: u128,
    ) -> bool {
        let i = old.consumer_pos(sender);
        let rec = old.consumers_view()[i];
        let ds = old.delegations_view();
        let j = old.delegation_pos(sender, validator);
        &&& new.config_view() == old.config_view()
        &&& new.pending_view() == old.pending_view()
        &&& new.next_id_view() == old.next_id_view()
        &&& new.admitted() == old.admitted()
        &&& new.consumers_view() == old.consumers_view().update(
            i,
            with_available(rec, (rec.available_funds + amount) as u128),
        )
        &&& new.delegations_view() == ds.update(
            j,
            with_total(ds[j], (ds[j].total_delegated - amount) as u128),
        )
    }

    /// `sender` takes `amount` back from `validator`; on success the command
    /// for the bonding module is returned.
    pub fn undelegate(&mut self, sender: &String, validator: String, amount: Coin) -> (r: Result<
        Command,
        ContractError,
    >)
        requires
            old(self).wf(),
        ensures
            final(self).wf(),
            match r {
                Ok(cmd) => old(self).undelegate_error(sender@, validator@, amount) is None
                    && Ledger::undelegate_post(*old(self), *final(self), sender@, validator@, amount.amount)
                    && cmd == (Command::Undelegate { validator, amount })
                    && final(self).is_consumer(sender@)
                    && final(self).consumer_of(sender@).available_funds
                        == old(self).consumer_of(sender@).available_funds + amount.amount
                    && final(self).delegated_amount(sender@, validator@)
                        == old(self).delegated_amount(sender@, validator@) - amount.amount,
                Err(e) => old(self).undelegate_error(sender@, validator@, amount) == Some(e)
                    && *final(self) == *old(self),
            },
    {
        if amount.denom != self.config.denom {
            return Err(ContractError::IncorrectDenom);
        }
        let i = match self.find_consumer(sender) {
            Some(i) => i,
            None => { return Err(ContractError::Unauthorized); },
        };
        let j = match self.find_delegation(sender, &validator) {
            Some(j) => j,
            None => { return Err(ContractError::NoDelegationsForValidator); },
        };
        let t = self.delegations[j].total_delegated;
        if t < amount.amount {
            return Err(ContractError::InsufficientDelegation);
        }
        let ghost s0 = *self;
        let ghost ds0 = self.delegations@;
        let ghost c = sender@;
        let ghost amt = amount.amount as int;
        let available = self.consumers[i].available_funds;
        proof {
            lemma_share_le(ds0, j as int, c);
            assert(self.consumers@[i as int].address@ == c);
        }
        let rec = ValidatorInfo {
            address: self.delegations[j].address.clone(),
            consumer: self.delegations[j].consumer.clone(),
            total_delegated: t - amount.amount,
        };
        self.delegations[j] = rec;
        proof {
            assert forall|a: Seq<char>|
                #[trigger] delegated_by(self.delegations@, a) == delegated_by(ds0, a) - (if a == c {
                    amt
                } else {
                    0
                }) by {
                lemma_delegated_update(ds0, j as int, rec, a);
            }
        }
        let crec = ConsumerInfo {
            address: self.consumers[i].address.clone(),
            available_funds: available + amount.amount,
            total_staked: self.consumers[i].total_staked,
        };
        self.consumers[i] = crec;
        proof {
            let cs = self.consumers_view();
            assert(forall|k: int| 0 <= k < cs.len() ==> (#[trigger] cs[k]).address@ == s0.consumers_view()[k].address@);
            assert forall|a: Seq<char>| self.is_consumer(a) == s0.is_consumer(a) by {
                if s0.is_consumer(a) {
                    let k = s0.consumer_pos(a);
                    assert(cs[k].address@ == a);
                }
                if self.is_consumer(a) {
                    let k = choose|k: int| 0 <= k < cs.len() && (#[trigger] cs[k]).address@ == a;
                    assert(s0.consumers_view()[k].address@ == a);
                }
            }
            assert(self.wf());
            lemma_consumer_pos(*self, c, i as int);
            assert(ds0[j as int].consumer@ == c && ds0[j as int].address@ == validator@);
            lemma_delegation_pos(*self, c, validator@, j as int);
        }
        Ok(Command::Undelegate { validator, amount })
    }

    /// The error that `add_consumer` reports, if any.
    pub open spec fn add_consumer_error(&self, address: Seq<char>, funds: u128, contract_balance: u128) -> Option<ContractError> {
        if self.is_consumer(address) {
            Some(ContractError::ConsumerAlreadyExists)
        } else if contract_balance <= funds {
            Some(ContractError::NotEnoughFunds)
        } else {
            None
        }
    }

    /// Admits a consumer with `funds_available_for_staking` to delegate;
    /// `contract_balance` is what the ledger's owner holds in the bonding
    /// denomination, and must exceed the allocation.
    pub fn add_consumer(
        &mut self,
        consumer_address: String,
        funds_available_for_staking: Coin,
        contract_balance: u128,
    ) -> (r: Result<(), ContractError>)
        requires
            old(self).wf(),
        ensures
            final(self).wf(),
            match r {
                Ok(()) => old(self).add_consumer_error(consumer_address@, funds_available_for_staking.amount, contract_balance) is None
                    && final(self).consumers_view() == old(self).consumers_view().push(
                        ConsumerInfo {
                            address: consumer_address,
                            available_funds: funds_available_for_staking.amount,
                            total_staked: 0,
                        },
                    )
                    && final(self).delegations_view() == old(self).delegations_view()
                    && final(self).pending_view() == old(self).pending_view()
                    && final(self).next_id_view() == old(self).next_id_view()
                    && final(self).config_view() == old(self).config_view()
                    && final(self).admitted() == old(self).admitted().insert(
                        consumer_address@,
                        funds_available_for_staking.amount as nat,
                    )
                    && final(self).is_consumer(consumer_address@)
                    && final(self).consumer_of(consumer_address@) == (ConsumerInfo {
                        address: consumer_address,
                        available_funds: funds_available_for_staking.amount,
                        total_staked: 0,
                    }),
                Err(e) => old(self).add_consumer_error(consumer_address@, funds_available_for_staking.amount, contract_balance) == Some(e)
                    && *final(self) == *old(self),
            },
    {
        let found = self.find_consumer(&consumer_address);
        if found.is_some() {
            return Err(ContractError::ConsumerAlreadyExists);
        }
        if contract_balance <= funds_available_for_staking.amount {
            return Err(ContractError::NotEnoughFunds);
        }
        let ghost s0 = *self;
        let ghost a = consumer_address@;
        let funds = funds_available_for_staking.amount;
        self.consumers.push(ConsumerInfo { address: consumer_address, available_funds: funds, total_staked: 0 });
        self.admitted = Ghost(self.admitted@.insert(a, funds as nat));
        proof {
            let cs = self.consumers_view();
            let n = s0.consumers_view().len();
            assert(cs[n as int].address@ == a);
            assert forall|b: Seq<char>| !self.is_consumer(b) implies !s0.is_consumer(b) by {
                if s0.is_consumer(b) {
                    let k = s0.consumer_pos(b);
                    assert(cs[k].address@ == b);
                }
            }
            assert forall|k: int| 0 <= k < n implies (#[trigger] cs[k]).address@ != a by {
                assert(s0.consumers_view()[k].address@ != a);
            }
            assert(!s0.is_consumer(a));
            assert(delegated_by(s0.delegations_view(), a) == 0);
            assert(delegated_by(self.delegations_view(), a) == 0);
            assert forall|k: int| 0 <= k < cs.len() implies self.admitted().contains_key((#[trigger] cs[k]).address@)
                && cs[k].available_funds + delegated_by(self.delegations_view(), cs[k].address@)
                == self.admitted()[cs[k].address@] by {
                if k < n {
                    assert(cs[k] == s0.consumers_view()[k]);
                }
            }
            assert forall|b: Seq<char>| #[trigger] self.admitted().contains_key(b) implies self.admitted()[b] <= u128::MAX by {
                if b != a {
                    assert(s0.admitted().contains_key(b));
                }
            }
            assert forall|b: Seq<char>| !self.is_consumer(b) implies #[trigger] delegated_by(self.delegations_view(), b) == 0 by {
                assert(!s0.is_consumer(b));
            }
            assert forall|k: int, m: int| 0 <= k < m < cs.len() implies (#[trigger] cs[k]).address@ != (#[trigger] cs[m]).address@ by {
                if m < n {
                    assert(s0.consumers_view()[k].address@ != s0.consumers_view()[m].address@);
                }
            }
            assert(self.wf());
            lemma_consumer_pos(*self, a, n as int);
        }
        Ok(())
    }

    /// Removes a consumer. Its delegation records stay as zero-balance
    /// records: the ledger writes the position off and does not unbond.
    pub fn remove_consumer(&mut self, consumer_address: &String) -> (r: Result<(), ContractError>)
        requires
            old(self).wf(),
        ensures
            final(self).wf(),
            match r {
                Ok(()) => old(self).is_consumer(consumer_address@)
                    && final(self).consumers_view() == old(self).consumers_view().remove(
                        old(self).consumer_pos(consumer_address@),
                    )
                    && final(self).delegations_view() == written_off(old(self).delegations_view(), consumer_address@)
                    && final(self).pending_view() == old(self).pending_view()
                    && final(self).next_id_view() == old(self).next_id_view()
                    && final(self).config_view() == old(self).config_view()
                    && final(self).admitted() == old(self).admitted().remove(consumer_address@),
                Err(e) => !old(self).is_consumer(consumer_address@) && e == ContractError::NoConsumer
                    && *final(self) == *old(self),
            },
    {
        let i = match self.find_consumer(consumer_address) {
            Some(i) => i,
            None => { return Err(ContractError::NoConsumer); },
        };
        let ghost s0 = *self;
        let ghost a = consumer_address@;
        self.consumers.remove(i);
        write_off(&mut self.delegations, consumer_address);
        self.admitted = Ghost(self.admitted@.remove(a));
        proof {
            let cs = self.consumers_view();
            let cs0 = s0.consumers_view();
            assert(forall|k: int| 0 <= k < cs.len() ==> #[trigger] cs[k] == cs0[if k < i { k } else { k + 1 }]);
            assert forall|k: int| 0 <= k < cs.len() implies (#[trigger] cs[k]).address@ != a by {
                let m = if k < i { k } else { k + 1 };
                assert(cs0[m].address@ != cs0[i as int].address@);
            }
            assert forall|b: Seq<char>| !self.is_consumer(b) && b != a implies !s0.is_consumer(b) by {
                if s0.is_consumer(b) {
                    let k = s0.consumer_pos(b);
                    let m = if k < i { k } else { k - 1 };
                    assert(cs[m].address@ == b);
                }
            }
        }
        Ok(())
    }
    /// Registers a reward withdrawal from `validator` for `sender` under a
    /// fresh correlation id, and returns the command that asks for it.
    pub fn withdraw_delegator_reward(&mut self, sender: &String, validator: String) -> (r: Result<
        Command,
        ContractError,
    >)
        requires
            old(self).wf(),
        ensures
            final(self).wf(),
            match r {
                Ok(cmd) => old(self).is_consumer(sender@)
                    && cmd == (Command::WithdrawReward { validator, id: old(self).next_id_view() })
                    && final(self).pending_view() == old(self).pending_view().push(
                        PendingWithdrawal { id: old(self).next_id_view(), consumer: *sender, validator },
                    )
                    && final(self).next_id_view() == old(self).next_id_view().wrapping_add(1)
                    && final(self).consumers_view() == old(self).consumers_view()
                    && final(self).delegations_view() == old(self).delegations_view()
                    && final(self).config_view() == old(self).config_view()
                    && final(self).admitted() == old(self).admitted(),
                Err(e) => !old(self).is_consumer(sender@) && e == ContractError::Unauthorized
                    && *final(self) == *old(self),
            },
    {
        let found = self.find_consumer(sender);
        if found.is_none() {
            return Err(ContractError::Unauthorized);
        }
        let id = self.next_id;
        self.pending.push(PendingWithdrawal { id, consumer: sender.clone(), validator: validator.clone() });
        self.next_id = self.next_id.wrapping_add(1);
        Ok(Command::WithdrawReward { validator, id })
    }

    /// Handles the completion of withdrawal `id`, which brought in `reward`:
    /// the earliest pending entry with that id is cleared and the reward is
    /// forwarded to its consumer.
    pub fn forward_rewards_to_consumer(&mut self, id: u64, reward: u128) -> (r: Result<
        Command,
        ContractError,
    >)
        requires
            old(self).wf(),
        ensures
            final(self).wf(),
            final(self).consumers_view() == old(self).consumers_view(),
            final(self).delegations_view() == old(self).delegations_view(),
            final(self).config_view() == old(self).config_view(),
            final(self).admitted() == old(self).admitted(),
            final(self).next_id_view() == old(self).next_id_view(),
            match r {
                Ok(cmd) => exists|k: int|
                    0 <= k < old(self).pending_view().len()
                        && (#[trigger] old(self).pending_view()[k]).id == id
                        && (forall|m: int| 0 <= m < k ==> (#[trigger] old(self).pending_view()[m]).id != id)
                        && final(self).pending_view() == old(self).pending_view().remove(k)
                        && cmd == (Command::Transfer {
                            to: old(self).pending_view()[k].consumer,
                            amount: Coin { denom: old(self).config_view().denom, amount: reward },
                        }),
                Err(e) => e == ContractError::UnknownCallback
                    && (forall|m: int| 0 <= m < old(self).pending_view().len() ==> (#[trigger] old(self).pending_view()[m]).id != id)
                    && *final(self) == *old(self),
            },
    {
        let mut k: usize = 0;
        while k < self.pending.len()
            invariant
                *self == *old(self),
                self.wf(),
                k <= self.pending@.len(),
                forall|m: int| 0 <= m < k ==> (#[trigger] self.pending@[m]).id != id,
            decreases self.pending@.len() - k,
        {
            if self.pending[k].id == id {
                let ghost s0 = *self;
                let entry = self.pending.remove(k);
                let amount = Coin { denom: self.config.denom.clone(), amount: reward };
                proof {
                    assert(self.consumers_view() == s0.consumers_view());
                    assert(self.delegations_view() == s0.delegations_view());
                    assert(self.admitted() == s0.admitted());
                    assert(forall|a: Seq<char>| self.is_consumer(a) == s0.is_consumer(a));
                    assert(s0.pending_view()[k as int].id == id);
                }
                return Ok(Command::Transfer { to: entry.consumer, amount });
            }
            k += 1;
        }
        Err(ContractError::UnknownCallback)
    }

    /// The record of consumer `address`, if it is registered.
    pub fn consumer(&self, address: &String) -> (r: Option<ConsumerInfo>)
        requires
            self.wf(),
        ensures
            r == (if self.is_consumer(address@) {
                Some(self.consumer_of(address@))
            } else {
                None
            }),
    {
        match self.find_consumer(address) {
            Some(i) => Some(self.consumers[i].copy()),
            None => None,
        }
    }

    /// The record of what `consumer` has delegated to `validator`, if any.
    pub fn delegation(&self, consumer: &String, validator: &String) -> (r: Option<ValidatorInfo>)
        requires
            self.wf(),
        ensures
            r == (if self.has_delegation(consumer@, validator@) {
                Some(self.delegations_view()[self.delegation_pos(consumer@, validator@)])
            } else {
                None
            }),
    {
        match self.find_delegation(consumer, validator) {
            Some(j) => Some(self.delegations[j].copy()),
            None => None,
        }
    }

    /// All registered consumers, in order of admission.
    pub fn consumers(&self) -> (r: Vec<ConsumerInfo>)
        ensures
            r@ == self.consumers_view(),
    {
        let mut out: Vec<ConsumerInfo> = Vec::new();
        let mut i: usize = 0;
        while i < self.consumers.len()
            invariant
                i <= self.consumers@.len(),
                out@ == self.consumers@.take(i as int),
            decreases self.consumers@.len() - i,
        {
            out.push(self.consumers[i].copy());
            i += 1;
            assert(out@ =~= self.consumers@.take(i as int));
        }
        assert(out@ =~= self.consumers@);
        out
    }

    /// Every delegation record of `consumer`, in the order they were created.
    pub fn all_delegations(&self, consumer: &String) -> (r: Vec<ValidatorInfo>)
        ensures
            r@ == delegations_of(self.delegations_view(), consumer@),
    {
        let ghost ds = self.delegations@;
        let mut out: Vec<ValidatorInfo> = Vec::new();
        let mut j: usize = 0;
        while j < self.delegations.len()
            invariant
                ds == self.delegations@,
                j <= ds.len(),
                out@ == delegations_of(ds.take(j as int), consumer@),
            decreases ds.len() - j,
        {
            assert(ds.take(j + 1).drop_last() =~= ds.take(j as int));
            if self.delegations[j].consumer == *consumer {
                out.push(self.delegations[j].copy());
            }
            j += 1;
        }
        assert(ds.take(j as int) =~= ds);
        out
    }

    /// The validators that `consumer` has delegation records with.
    pub fn all_validators(&self, consumer: &String) -> (r: Vec<String>)
        ensures
            r@ == validators_of(self.delegations_view(), consumer@),
    {
        let ghost ds = self.delegations@;
        let mut out: Vec<String> = Vec::new();
        let mut j: usize = 0;
        while j < self.delegations.len()
            invariant
                ds == self.delegations@,
                j <= ds.len(),
                out@ == validators_of(ds.take(j as int), consumer@),
            decreases ds.len() - j,
        {
            assert(ds.take(j + 1).drop_last() =~= ds.take(j as int));
            if self.delegations[j].consumer == *consumer {
                out.push(self.delegations[j].address.clone());
            }
            j += 1;
        }
        assert(ds.take(j as int) =~= ds);
        out
    }
    /// Rebuilds a ledger from its stored parts, or `None` where they are not
    /// `restorable`. Each consumer counts as admitted with its available funds
    /// plus what it has delegated.
    pub fn from_parts(
        config: Config,
        consumers: Vec<ConsumerInfo>,
        delegations: Vec<ValidatorInfo>,
        pending: Vec<PendingWithdrawal>,
        next_id: u64,
    ) -> (r: Option<Ledger>)
        ensures
            match r {
                Some(l) => restorable(consumers@, delegations@) && l.wf() && l.config_view() == config
                    && l.consumers_view() == consumers@ && l.delegations_view() == delegations@
                    && l.pending_view() == pending@ && l.next_id_view() == next_id
                    && l.admitted() == admitted_of(consumers@, delegations@),
                None => !restorable(consumers@, delegations@),
            },
    {
        let ghost cs = consumers@;
        let ghost ds = delegations@;
        let mut i: usize = 0;
        while i < consumers.len()
            invariant
                cs == consumers@,
                i <= cs.len(),
                forall|p: int, q: int|
                    0 <= p < i && p < q < cs.len() ==> (#[trigger] cs[p]).address@ != (#[trigger] cs[q]).address@,
            decreases cs.len() - i,
        {
            let mut j: usize = i + 1;
            while j < consumers.len()
                invariant
                    cs == consumers@,
                    i < cs.len(),
                    i + 1 <= j <= cs.len(),
                    forall|p: int, q: int|
                        0 <= p < i && p < q < cs.len() ==> (#[trigger] cs[p]).address@ != (#[trigger] cs[q]).address@,
                    forall|q: int| i < q < j ==> cs[i as int].address@ != (#[trigger] cs[q]).address@,
                decreases cs.len() - j,
            {
                if consumers[i].address == consumers[j].address {
                    return None;
                }
                j += 1;
            }
            i += 1;
        }
        let mut i: usize = 0;
        while i < delegations.len()
            invariant
                ds == delegations@,
                i <= ds.len(),
                forall|p: int, q: int|
                    0 <= p < i && p < q < ds.len() ==> !((#[trigger] ds[p]).consumer@ == (#[trigger] ds[q]).consumer@
                        && ds[p].address@ == ds[q].address@),
            decreases ds.len() - i,
        {
            let mut j: usize = i + 1;
            while j < delegations.len()
                invariant
                    ds == delegations@,
                    i < ds.len(),
                    i + 1 <= j <= ds.len(),
                    forall|p: int, q: int|
                        0 <= p < i && p < q < ds.len() ==> !((#[trigger] ds[p]).consumer@ == (#[trigger] ds[q]).consumer@
                            && ds[p].address@ == ds[q].address@),
                    forall|q: int| i < q < j ==> !(ds[i as int].consumer@ == (#[trigger] ds[q]).consumer@
                        && ds[i as int].address@ == ds[q].address@),
                decreases ds.len() - j,
            {
                if delegations[i].consumer == delegations[j].consumer && delegations[i].address
                    == delegations[j].address {
                    return None;
                }
                j += 1;
            }
            i += 1;
        }
        let mut k: usize = 0;
        while k < delegations.len()
            invariant
                ds == delegations@,
                cs == consumers@,
                k <= ds.len(),
                forall|p: int, q: int|
                    0 <= p < q < cs.len() ==> (#[trigger] cs[p]).address@ != (#[trigger] cs[q]).address@,
                forall|p: int, q: int|
                    0 <= p < q < ds.len() ==> !((#[trigger] ds[p]).consumer@ == (#[trigger] ds[q]).consumer@
                        && ds[p].address@ == ds[q].address@),
                forall|m: int|
                    0 <= m < k && !registered(cs, (#[trigger] ds[m]).consumer@) ==> ds[m].total_delegated == 0,
            decreases ds.len() - k,
        {
            if position(&consumers, &delegations[k].consumer).is_none()
                && delegations[k].total_delegated != 0 {
                return None;
            }
            k += 1;
        }
        let mut i: usize = 0;
        while i < consumers.len()
            invariant
                ds == delegations@,
                cs == consumers@,
                i <= cs.len(),
                forall|p: int, q: int|
                    0 <= p < q < cs.len() ==> (#[trigger] cs[p]).address@ != (#[trigger] cs[q]).address@,
                forall|p: int, q: int|
                    0 <= p < q < ds.len() ==> !((#[trigger] ds[p]).consumer@ == (#[trigger] ds[q]).consumer@
                        && ds[p].address@ == ds[q].address@),
                forall|m: int|
                    0 <= m < ds.len() && !registered(cs, (#[trigger] ds[m]).consumer@) ==> ds[m].total_delegated == 0,
                forall|p: int|
                    0 <= p < i ==> (#[trigger] cs[p]).available_funds + delegated_by(ds, cs[p].address@)
                        <= u128::MAX,
            decreases cs.len() - i,
        {
            let mut acc: u128 = consumers[i].available_funds;
            let mut k: usize = 0;
            while k < delegations.len()
                invariant
                    ds == delegations@,
                    cs == consumers@,
                    i < cs.len(),
                    k <= ds.len(),
                    acc == cs[i as int].available_funds + delegated_by(ds.take(k as int), cs[i as int].address@),
                decreases ds.len() - k,
            {
                proof {
                    assert(ds.take(k + 1).drop_last() =~= ds.take(k as int));
                }
                if delegations[k].consumer == consumers[i].address {
                    let t = delegations[k].total_delegated;
                    if t > u128::MAX - acc {
                        proof {
                            lemma_prefix_le(ds, k + 1, cs[i as int].address@);
                        }
                        return None;
                    }
                    acc = acc + t;
                }
                k += 1;
            }
            proof {
                assert(ds.take(k as int) =~= ds);
            }
            i += 1;
        }
        proof {
            assert forall|a: Seq<char>| !registered(cs, a) implies #[trigger] delegated_by(ds, a) == 0 by {
                assert forall|m: int| 0 <= m < ds.len() implies share(#[trigger] ds[m], a) == 0 by {
                    if ds[m].consumer@ == a {
                        assert(!registered(cs, ds[m].consumer@));
                    }
                }
                lemma_delegated_zero(ds, a);
            }
        }
        let l = Ledger {
            config,
            consumers,
            delegations,
            pending,
            next_id,
            admitted: Ghost(admitted_of(cs, ds)),
        };
        proof {
            assert forall|p: int| 0 <= p < cs.len() implies l.admitted().contains_key((#[trigger] cs[p]).address@)
                && cs[p].available_funds + delegated_by(ds, cs[p].address@)
                == l.admitted()[cs[p].address@] by {
                let a = cs[p].address@;
                assert(registered(cs, a));
                let q = position_of(cs, a);
                assert(0 <= q < cs.len() && cs[q].address@ == a);
                if q < p {
                    assert(cs[q].address@ != cs[p].address@);
                } else if q > p {
                    assert(cs[p].address@ != cs[q].address@);
                }
                assert(q == p);
                assert(l.admitted() == admitted_of(cs, ds));
                assert(admitted_of(cs, ds).contains_key(a));
                assert(admitted_of(cs, ds)[a] == (cs[q].available_funds + delegated_by(ds, a)) as nat);
                lemma_delegated_nonneg(ds, a);
            }
            assert forall|a: Seq<char>| #[trigger] l.admitted().contains_key(a) implies l.admitted()[a] <= u128::MAX by {
                let q = position_of(cs, a);
                assert(cs[q].available_funds + delegated_by(ds, cs[q].address@) <= u128::MAX);
            }
            assert(l.consumers_view() == cs);
            assert forall|a: Seq<char>| !l.is_consumer(a) implies #[trigger] delegated_by(ds, a) == 0 by {
                if registered(cs, a) {
                    let q = position_of(cs, a);
                    assert(l.consumers_view()[q].address@ == a);
                }
            }
        }
        Some(l)
    }
    /// Every delegation record, zero-balance ones included.
    pub fn delegations(&self) -> (r: Vec<ValidatorInfo>)
        ensures
            r@ == self.delegations_view(),
    {
        let mut out: Vec<ValidatorInfo> = Vec::new();
        let mut j: usize = 0;
        while j < self.delegations.len()
            invariant
                j <= self.delegations@.len(),
                out@ == self.delegations@.take(j as int),
            decreases self.delegations@.len() - j,
        {
            out.push(self.delegations[j].copy());
            j += 1;
            assert(out@ =~= self.delegations@.take(j as int));
        }
        assert(out@ =~= self.delegations@);
        out
    }

    /// The reward withdrawals that await their callback, oldest first.
    pub fn pending(&self) -> (r: Vec<PendingWithdrawal>)
        ensures
            r@ == self.pending_view(),
    {
        let mut out: Vec<PendingWithdrawal> = Vec::new();
        let mut k: usize = 0;
        while k < self.pending.len()
            invariant
                k <= self.pending@.len(),
                out@ == self.pending@.take(k as int),
            decreases self.pending@.len() - k,
        {
            out.push(self.pending[k].copy());
            k += 1;
            assert(out@ =~= self.pending@.take(k as int));
        }
        assert(out@ =~= self.pending@);
        out
    }

    /// The correlation id that the next reward withdrawal gets.
    pub fn next_id(&self) -> (r: u64)
        ensures
            r == self.next_id_view(),
    {
        self.next_id
    }
}

/// In a valid ledger, the record with a consumer's address is the one that
/// `consumer_pos` picks.
pub proof fn lemma_consumer_pos(l: Ledger, c: Seq<char>, i: int)
    requires
        l.wf(),
        0 <= i < l.consumers_view().len(),
        l.consumers_view()[i].address@ == c,
    ensures
        l.is_consumer(c),
        l.consumer_pos(c) == i,
{
    assert(l.is_consumer(c));
    let p = l.consumer_pos(c);
    if p < i {
        assert(l.consumers_view()[p].address@ != l.consumers_view()[i].address@);
    } else if p > i {
        assert(l.consumers_view()[i].address@ != l.consumers_view()[p].address@);
    }
}

/// In a valid ledger, the record with a (consumer, validator) key is the one
/// that `delegation_pos` picks.
pub proof fn lemma_delegation_pos(l: Ledger, c: Seq<char>, v: Seq<char>, j: int)
    requires
        l.wf(),
        0 <= j < l.delegations_view().len(),
        l.delegations_view()[j].consumer@ == c,
        l.delegations_view()[j].address@ == v,
    ensures
        l.has_delegation(c, v),
        l.delegation_pos(c, v) == j,
{
    let ds = l.delegations_view();
    assert(l.has_delegation(c, v));
    let p = l.delegation_pos(c, v);
    if p < j {
        assert(!(ds[p].consumer@ == ds[j].consumer@ && ds[p].address@ == ds[j].address@));
    } else if p > j {
        assert(!(ds[j].consumer@ == ds[p].consumer@ && ds[j].address@ == ds[p].address@));
    }
}

} // verus!
