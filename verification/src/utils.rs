//! Checks shared by the operations.
use crate::error::{ContractError, ErrorModel};
use crate::state::Contract;
use crate::structs::{Coin, DebtTokenStatus};
use vstd::prelude::*;
use vstd::string::StrSliceExecFns;

verus! {

/// The funds sent with a message must be exactly one coin: that coin, or
/// `InvalidFunds`.
pub fn validate_single_fund(funds: Vec<Coin>) -> (r: Result<Coin, ContractError>)
    ensures
        funds@.len() == 1 <==> r is Ok,
        r matches Ok(c) ==> c == funds@[0],
        r matches Err(e) ==> e@ == ErrorModel::InvalidFunds,
{
    if funds.len() != 1 {
        Err(ContractError::InvalidFunds)
    } else {
        Ok(funds[0].clone())
    }
}

/// A debt token must have been registered by this contract: its status at
/// `curr_time` (live while its expiry lies after it), or `UnknownToken`.
pub fn validate_debt_token(state: &Contract, token_name: String, curr_time: u64) -> (r: Result<
    DebtTokenStatus,
    ContractError,
>)
    requires
        state@.keys_unique(),
    ensures
        state@.has_debt_token(token_name@) <==> r is Ok,
        r matches Ok(s) ==> s == (if state@.debt_expiry(token_name@) > curr_time {
            DebtTokenStatus::Live
        } else {
            DebtTokenStatus::Expired
        }),
        r matches Err(e) ==> e@ == ErrorModel::UnknownToken,
{
    match state.find_debt_token(&token_name) {
        None => Err(ContractError::UnknownToken),
        Some(i) => {
            proof {
                crate::state::lemma_debt_index(state@, i as int);
            }
            Ok(DebtTokenStatus::from_expiration(state.debt_expiration[i].expiry, curr_time))
        },
    }
}

/// The index of the first `/` in `s` at or after `from`, if any.
fn next_slash(s: &str, from: usize) -> (r: Option<usize>)
    requires
        from <= s@.len(),
    ensures
        match r {
            Some(k) => from <= k < s@.len() && s@[k as int] == '/' && forall|j: int|
                from <= j < k ==> s@[j] != '/',
            None => forall|j: int| from <= j < s@.len() ==> s@[j] != '/',
        },
{
    let n = s.unicode_len();
    let mut k = from;
    while k < n
        invariant
            n == s@.len(),
            from <= k <= n,
            forall|j: int| from <= j < k ==> s@[j] != '/',
        decreases n - k,
    {
        if s.get_char(k) == '/' {
            return Some(k);
        }
        k = k + 1;
    }
    None
}

/// Splits a token factory denomination `factory/{creator}/{subdenom}` into
/// its components and looks at the first two (the checks on them have no
/// effect). A denomination without `/` has no second component; the split
/// panics there, which `requires` leaves out.
pub fn parse_debt_token_components(denom_name: String, contract_address: String)
    requires
        denom_name@.contains('/'),
{
    let s = denom_name.as_str();
    let first_end = match next_slash(s, 0) {
        Some(k) => k,
        None => {
            proof {
                let j = choose|j: int| 0 <= j < denom_name@.len() && denom_name@[j] == '/';
                assert(s@[j] != '/');
            }
            return;
        },
    };
    let n = s.unicode_len();
    let second_end = match next_slash(s, first_end + 1) {
        Some(k) => k,
        None => n,
    };
    let first = s.substring_char(0, first_end);
    let second = s.substring_char(first_end + 1, second_end);
    // must come from the token factory module
    if first.to_owned() != "factory".to_owned() {
    }
    // must come from this contract
    if second.to_owned() != contract_address {
    }
}

} // verus!
