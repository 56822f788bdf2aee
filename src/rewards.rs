use vstd::prelude::*;

verus! {

#[verifier::external_type_specification]
#[verifier::external_body]
pub struct ExCoins(cosmwasm_std::Coins);

/// What a `Coins` value holds: the amount of each denomination it names.
pub uninterp spec fn coins_held(c: cosmwasm_std::Coins) -> Map<Seq<char>, u128>;

/// What `Coins::from_str` reads from a text such as `"12ustake,3uatom"`, or
/// `None` where the text is not a list of coins.
pub uninterp spec fn coins_parsed(s: Seq<char>) -> Option<Map<Seq<char>, u128>>;

/// Relies on `Coins::from_str` of cosmwasm_std: the outcome depends on the
/// text alone.
#[verifier::external_body]
fn parse_coins(s: &String) -> (r: Option<cosmwasm_std::Coins>)
    ensures
        match r {
            Some(c) => coins_parsed(s@) == Some(coins_held(c)),
            None => coins_parsed(s@) is None,
        },
{
    <cosmwasm_std::Coins as std::str::FromStr>::from_str(s).ok()
}

/// Relies on `Coins::amount_of` of cosmwasm_std: the amount held of `denom`,
/// zero where it holds none.
#[verifier::external_body]
fn amount_of(c: &cosmwasm_std::Coins, denom: &String) -> (r: u128)
    ensures
        r == (if coins_held(*c).contains_key(denom@) {
            coins_held(*c)[denom@]
        } else {
            0u128
        }),
{
    c.amount_of(denom).u128()
}

/// The amount of `denom` in a parsed list of coins, zero where it has none.
pub open spec fn amount_in(m: Map<Seq<char>, u128>, denom: Seq<char>) -> int {
    if m.contains_key(denom) {
        m[denom] as int
    } else {
        0
    }
}

/// The sum of `parts`, or `None` where one of them is `None`.
pub open spec fn sum_parts(parts: Seq<Option<u128>>) -> Option<int>
    decreases parts.len(),
{
    if parts.len() == 0 {
        Some(0)
    } else {
        match (sum_parts(parts.drop_last()), parts.last()) {
            (Some(t), Some(x)) => Some(t + x),
            _ => None,
        }
    }
}

/// The reward that `parts` add up to, where each is known and the sum fits.
pub open spec fn reward_total(parts: Seq<Option<u128>>) -> Option<u128> {
    match sum_parts(parts) {
        Some(t) => if t <= u128::MAX {
            Some(t as u128)
        } else {
            None
        },
        None => None,
    }
}

proof fn lemma_sum_prefix(parts: Seq<Option<u128>>, k: int)
    requires
        0 <= k <= parts.len(),
        sum_parts(parts) is Some,
    ensures
        sum_parts(parts.take(k)) is Some,
        0 <= sum_parts(parts.take(k))->0 <= sum_parts(parts)->0,
    decreases parts.len(),
{
    if k < parts.len() {
        assert(parts.drop_last().take(k) =~= parts.take(k));
        lemma_sum_prefix(parts.drop_last(), k);
    } else {
        assert(parts.take(k) =~= parts);
        if parts.len() > 0 {
            lemma_sum_prefix(parts.drop_last(), parts.len() - 1);
            assert(parts.drop_last().take(parts.len() - 1) =~= parts.drop_last());
        }
    }
}

/// Adds up the amounts that a reward withdrawal reported; `None` where one of
/// them could not be read or the sum does not fit.
pub fn sum_rewards(parts: &Vec<Option<u128>>) -> (r: Option<u128>)
    ensures
        r == reward_total(parts@),
{
    let mut total: u128 = 0;
    let mut k: usize = 0;
    while k < parts.len()
        invariant
            k <= parts@.len(),
            sum_parts(parts@.take(k as int)) == Some(total as int),
        decreases parts@.len() - k,
    {
        proof {
            assert(parts@.take(k + 1).drop_last() =~= parts@.take(k as int));
        }
        match parts[k] {
            Some(x) => {
                if x > u128::MAX - total {
                    proof {
                        if sum_parts(parts@) is Some {
                            lemma_sum_prefix(parts@, k + 1);
                        }
                    }
                    return None;
                }
                total = total + x;
            },
            None => {
                proof {
                    if sum_parts(parts@) is Some {
                        lemma_sum_prefix(parts@, k + 1);
                    }
                }
                return None;
            },
        }
        k += 1;
    }
    proof {
        assert(parts@.take(k as int) =~= parts@);
    }
    Some(total)
}

/// The amount of `denom` in each text of `amounts`, `None` for a text that is
/// not a list of coins.
pub open spec fn amounts_of(amounts: Seq<String>, denom: Seq<char>) -> Seq<Option<u128>> {
    amounts.map_values(
        |s: String|
            match coins_parsed(s@) {
                Some(m) => Some(amount_in(m, denom) as u128),
                None => None,
            },
    )
}

/// The reward in `denom` that the `amount` attributes of a withdrawal report
/// add up to.
pub fn reward_received(amounts: &Vec<String>, denom: &String) -> (r: Option<u128>)
    ensures
        r == reward_total(amounts_of(amounts@, denom@)),
{
    let mut parts: Vec<Option<u128>> = Vec::new();
    let mut k: usize = 0;
    while k < amounts.len()
        invariant
            k <= amounts@.len(),
            parts@ == amounts_of(amounts@.take(k as int), denom@),
        decreases amounts@.len() - k,
    {
        let part = match parse_coins(&amounts[k]) {
            Some(c) => Some(amount_of(&c, denom)),
            None => None,
        };
        parts.push(part);
        k += 1;
        assert(parts@ =~= amounts_of(amounts@.take(k as int), denom@));
    }
    assert(amounts@.take(k as int) =~= amounts@);
    sum_rewards(&parts)
}

} // verus!
