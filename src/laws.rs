use vstd::prelude::*;
use crate::ledger::{delegated_by, lemma_consumer_pos, lemma_delegation_pos, lemma_share_le, Ledger};
use crate::types::Coin;

verus! {

/// For every registered consumer, its available funds plus everything it has
/// delegated equal the funds it was admitted with.
pub proof fn lemma_funds_conserved(l: Ledger, c: Seq<char>)
    requires
        l.wf(),
        l.is_consumer(c),
    ensures
        l.admitted().contains_key(c),
        l.consumer_of(c).available_funds + delegated_by(l.delegations_view(), c) == l.admitted()[c],
{
    let i = l.consumer_pos(c);
    assert(l.consumers_view()[i].address@ == c);
}

/// A delegation larger than the consumer's available funds is rejected, so
/// available funds never go below zero.
pub proof fn lemma_no_overdraw(l: Ledger, sender: Seq<char>, amount: Coin)
    requires
        l.wf(),
        l.is_consumer(sender),
        amount.amount > l.consumer_of(sender).available_funds,
    ensures
        l.delegate_error(sender, amount) is Some,
{
}

/// Delegating an amount and then undelegating the same amount from the same
/// validator restores every consumer record and what the consumer has on
/// record with that validator.
pub proof fn lemma_delegate_undelegate_round_trip(
    l0: Ledger,
    l1: Ledger,
    l2: Ledger,
    sender: Seq<char>,
    validator: String,
    amount: Coin,
)
    requires
        l0.wf(),
        l1.wf(),
        l2.wf(),
        l0.delegate_error(sender, amount) is None,
        Ledger::delegate_post(l0, l1, sender, validator, amount.amount),
        Ledger::undelegate_post(l1, l2, sender, validator@, amount.amount),
    ensures
        l1.undelegate_error(sender, validator@, amount) is None,
        l2.consumers_view() == l0.consumers_view(),
        l2.admitted() == l0.admitted(),
        l2.delegated_amount(sender, validator@) == l0.delegated_amount(sender, validator@),
{
    let i = l0.consumer_pos(sender);
    assert(l0.consumers_view()[i].address@ == sender);
    assert(l1.consumers_view()[i].address@ == sender);
    lemma_consumer_pos(l1, sender, i);
    let ds0 = l0.delegations_view();
    let v = validator@;
    if l0.has_delegation(sender, v) {
        let j = l0.delegation_pos(sender, v);
        assert(ds0[j].consumer@ == sender && ds0[j].address@ == v);
        lemma_share_le(ds0, j, sender);
        assert(ds0[j].total_delegated + amount.amount <= u128::MAX);
        lemma_delegation_pos(l1, sender, v, j);
        assert(l2.delegations_view()[j].consumer@ == sender && l2.delegations_view()[j].address@ == v);
        lemma_delegation_pos(l2, sender, v, j);
        assert(l2.delegations_view() =~= ds0);
    } else {
        let j = ds0.len() as int;
        lemma_delegation_pos(l1, sender, v, j);
        assert(l2.delegations_view()[j].consumer@ == sender && l2.delegations_view()[j].address@ == v);
        lemma_delegation_pos(l2, sender, v, j);
    }
    assert(l2.consumers_view() =~= l0.consumers_view());
}

} // verus!
