//! Operations reserved to the administrator: handing over the role, creating
//! and registering debt tokens, minting, registering markets and setting
//! token metadata.
use crate::error::{ContractError, ErrorModel, StdError};
use crate::msg::{AdminExecuteMsg, ContractMsg, Env, MessageInfo, MsgModel, Response};
use crate::state::{lemma_debt_index, lemma_market_index, lemma_positions_frame, market_key_is, Contract, ContractModel, DebtExpiry, MarketEntry};
use crate::structs::Coin;
use vstd::prelude::*;

verus! {

/// Whether `sender` is the stored administrator.
pub open spec fn is_admin(m: ContractModel, sender: Seq<char>) -> bool {
    m.admin matches Some(a) && a@ == sender
}

/// The model with `denom`'s expiry set to `expiry` (added if absent).
pub open spec fn set_debt_expiry(m: ContractModel, denom: Seq<char>, expiry: u64) -> ContractModel {
    ContractModel {
        debt_expiration: if m.has_debt_token(denom) {
            m.debt_expiration.update(m.debt_index(denom), (denom, expiry))
        } else {
            m.debt_expiration.push((denom, expiry))
        },
        ..m
    }
}

/// The model with the market for `(base, quote)` set to `market_id` (added if
/// absent).
pub open spec fn set_market(m: ContractModel, base: Seq<char>, quote: Seq<char>, market_id: Seq<char>) -> ContractModel {
    ContractModel {
        markets: if m.has_market(base, quote) {
            m.markets.update(m.market_index(base, quote), (base, quote, market_id))
        } else {
            m.markets.push((base, quote, market_id))
        },
        ..m
    }
}

/// The model without the market for `(base, quote)`.
pub open spec fn remove_market(m: ContractModel, base: Seq<char>, quote: Seq<char>) -> ContractModel {
    ContractModel {
        markets: if m.has_market(base, quote) {
            m.markets.remove(m.market_index(base, quote))
        } else {
            m.markets
        },
        ..m
    }
}

/// The denomination the token factory gives a token `subdenom` created by
/// `creator`: `factory/{creator}/{subdenom}`.
pub open spec fn factory_denom(creator: Seq<char>, subdenom: Seq<char>) -> Seq<char> {
    "factory/"@ + creator + "/"@ + subdenom
}

/// What an administrator's message does. Anyone but the stored
/// administrator is refused with `Unauthorized`. `validated_admin` is the
/// chain's validation of the new administrator's address; it is consulted
/// only for `UpdateAdmin`.
pub open spec fn admin_outcome(
    m: ContractModel,
    env: Env,
    info: MessageInfo,
    msg: AdminExecuteMsg,
    validated_admin: Result<String, StdError>,
) -> Result<(ContractModel, Seq<MsgModel>), ErrorModel> {
    if !is_admin(m, info.sender@) {
        Err(ErrorModel::Unauthorized)
    } else {
        match msg {
            AdminExecuteMsg::UpdateAdmin { .. } => match validated_admin {
                Err(e) => Err(ErrorModel::Std(e@)),
                Ok(a) => Ok((ContractModel { admin: Some(a), ..m }, Seq::empty())),
            },
            AdminExecuteMsg::CreateDebtToken { subdenom, expiry } => Ok(
                (
                    set_debt_expiry(m, factory_denom(env.contract_address@, subdenom@), expiry),
                    seq![MsgModel::CreateDenom { sender: env.contract_address, subdenom }],
                ),
            ),
            AdminExecuteMsg::RegisterDebtToken { denom, expiry } => Ok(
                (set_debt_expiry(m, denom@, expiry), Seq::empty()),
            ),
            AdminExecuteMsg::MintDenom { mint_data } => Ok(
                (
                    m,
                    seq![
                        MsgModel::MintTokens {
                            sender: env.contract_address,
                            amount: mint_data,
                            mint_to: info.sender,
                        },
                    ],
                ),
            ),
            AdminExecuteMsg::RegisterMarket { base_currency, quote_currency, market_id } => Ok(
                (set_market(m, base_currency@, quote_currency@, market_id@), Seq::empty()),
            ),
            AdminExecuteMsg::RemoveMarket { base_currency, quote_currency } => Ok(
                (remove_market(m, base_currency@, quote_currency@), Seq::empty()),
            ),
            AdminExecuteMsg::SetTokenMetadata { denom, denom_name, symbol, decimals } => Ok(
                (
                    m,
                    seq![
                        MsgModel::SetTokenMetadata { denom, name: denom_name, symbol, decimals },
                    ],
                ),
            ),
        }
    }
}

/// Setting an expiry keeps the invariant.
pub proof fn lemma_set_debt_expiry_wf(m: ContractModel, denom: Seq<char>, expiry: u64)
    requires
        m.wf(),
    ensures
        set_debt_expiry(m, denom, expiry).wf(),
{
    let n = set_debt_expiry(m, denom, expiry);
    if m.has_debt_token(denom) {
        let i = m.debt_index(denom);
        assert forall|a: int, b: int| 0 <= a < b < n.debt_expiration.len() implies #[trigger] n.debt_expiration[a].0
            != #[trigger] n.debt_expiration[b].0 by {
            if a != i && b != i {
                assert(m.debt_expiration[a].0 != m.debt_expiration[b].0);
            } else if a == i {
                assert(m.debt_expiration[a].0 != m.debt_expiration[b].0);
            } else {
                assert(m.debt_expiration[a].0 != m.debt_expiration[b].0);
            }
        }
    } else {
        assert forall|a: int, b: int| 0 <= a < b < n.debt_expiration.len() implies #[trigger] n.debt_expiration[a].0
            != #[trigger] n.debt_expiration[b].0 by {
            if b == m.debt_expiration.len() {
                assert(m.debt_expiration[a].0 != denom);
            } else {
                assert(m.debt_expiration[a].0 != m.debt_expiration[b].0);
            }
        }
    }
    lemma_positions_frame(m, n);
}

/// Setting a market keeps the invariant.
pub proof fn lemma_set_market_wf(m: ContractModel, base: Seq<char>, quote: Seq<char>, id: Seq<char>)
    requires
        m.wf(),
    ensures
        set_market(m, base, quote, id).wf(),
{
    let n = set_market(m, base, quote, id);
    if m.has_market(base, quote) {
        let i = m.market_index(base, quote);
        assert forall|a: int, b: int| 0 <= a < b < n.markets.len() implies !market_key_is(
            #[trigger] n.markets[a],
            (#[trigger] n.markets[b]).0,
            n.markets[b].1,
        ) by {
            assert(!market_key_is(m.markets[a], m.markets[b].0, m.markets[b].1));
        }
    } else {
        assert forall|a: int, b: int| 0 <= a < b < n.markets.len() implies !market_key_is(
            #[trigger] n.markets[a],
            (#[trigger] n.markets[b]).0,
            n.markets[b].1,
        ) by {
            if b == m.markets.len() {
                assert(!market_key_is(m.markets[a], base, quote));
            } else {
                assert(!market_key_is(m.markets[a], m.markets[b].0, m.markets[b].1));
            }
        }
    }
    lemma_positions_frame(m, n);
}

/// Removing a market keeps the invariant.
pub proof fn lemma_remove_market_wf(m: ContractModel, base: Seq<char>, quote: Seq<char>)
    requires
        m.wf(),
    ensures
        remove_market(m, base, quote).wf(),
{
    let n = remove_market(m, base, quote);
    if m.has_market(base, quote) {
        let i = m.market_index(base, quote);
        assert forall|a: int, b: int| 0 <= a < b < n.markets.len() implies !market_key_is(
            #[trigger] n.markets[a],
            (#[trigger] n.markets[b]).0,
            n.markets[b].1,
        ) by {
            let a0 = if a < i { a } else { a + 1 };
            let b0 = if b < i { b } else { b + 1 };
            assert(!market_key_is(m.markets[a0], m.markets[b0].0, m.markets[b0].1));
        }
    }
    lemma_positions_frame(m, n);
}

impl Contract {
    /// Stores `expiry` as the expiry of `denom`.
    fn save_debt_expiry(&mut self, denom: String, expiry: u64)
        requires
            old(self)@.wf(),
        ensures
            final(self)@ == set_debt_expiry(old(self)@, denom@, expiry),
    {
        let ghost m0 = self@;
        match self.find_debt_token(&denom) {
            Some(i) => {
                proof {
                    lemma_debt_index(m0, i as int);
                }
                self.debt_expiration[i].expiry = expiry;
                assert(self@.debt_expiration =~= set_debt_expiry(m0, denom@, expiry).debt_expiration);
            },
            None => {
                self.debt_expiration.push(DebtExpiry { denom, expiry });
                assert(self@.debt_expiration =~= set_debt_expiry(m0, denom@, expiry).debt_expiration);
            },
        }
    }

    /// Handing over the administrator role to an address the chain validated.
    pub fn update_admin(&mut self, validated_admin: Result<String, StdError>) -> (r: Result<Response, ContractError>)
        ensures
            match (r, validated_admin) {
                (Ok(resp), Ok(a)) => final(self)@ == (ContractModel { admin: Some(a), ..old(self)@ }) && resp@ == Seq::<MsgModel>::empty(),
                (Err(e), Err(v)) => e@ == ErrorModel::Std(v@) && final(self)@ == old(self)@,
                _ => false,
            },
    {
        match validated_admin {
            Err(e) => Err(ContractError::Std(e)),
            Ok(a) => {
                self.admin = Some(a);
                Ok(Response::new())
            },
        }
    }

    /// Records the expiry of a new debt token `factory/{contract}/{subdenom}`
    /// and asks the token factory to create it.
    pub fn execute_create_debt_token(&mut self, env: &Env, subdenom: String, expiry: u64) -> (r: Response)
        requires
            old(self)@.wf(),
        ensures
            final(self)@ == set_debt_expiry(old(self)@, factory_denom(env.contract_address@, subdenom@), expiry),
            r@ == seq![MsgModel::CreateDenom { sender: env.contract_address, subdenom }],
    {
        let mut denom_name = "factory/".to_owned();
        denom_name.append(env.contract_address.as_str());
        denom_name.append("/");
        denom_name.append(subdenom.as_str());
        self.save_debt_expiry(denom_name, expiry);
        let mut messages: Vec<ContractMsg> = Vec::new();
        messages.push(ContractMsg::CreateDenom { sender: env.contract_address.clone(), subdenom });
        let resp = Response { messages };
        assert(resp@ =~= seq![MsgModel::CreateDenom { sender: env.contract_address, subdenom }]);
        resp
    }

    /// Records the expiry of a debt token created elsewhere.
    pub fn execute_register_debt_token(&mut self, denom: String, expiry: u64) -> (r: Response)
        requires
            old(self)@.wf(),
        ensures
            final(self)@ == set_debt_expiry(old(self)@, denom@, expiry),
            r@ == Seq::<MsgModel>::empty(),
    {
        self.save_debt_expiry(denom, expiry);
        Response::new()
    }

    /// Asks the token factory to mint `mint_data` to the sender.
    pub fn execute_mint_denom(&self, env: &Env, info: &MessageInfo, mint_data: Coin) -> (r: Response)
        ensures
            r@ == seq![
                MsgModel::MintTokens {
                    sender: env.contract_address,
                    amount: mint_data,
                    mint_to: info.sender,
                },
            ],
    {
        let mut messages: Vec<ContractMsg> = Vec::new();
        messages.push(
            ContractMsg::MintTokens {
                sender: env.contract_address.clone(),
                amount: mint_data,
                mint_to: info.sender.clone(),
            },
        );
        let resp = Response { messages };
        assert(resp@ =~= seq![
            MsgModel::MintTokens {
                sender: env.contract_address,
                amount: mint_data,
                mint_to: info.sender,
            },
        ]);
        resp
    }

    /// Registers (or replaces) the market identifier of a currency pair.
    pub fn execute_register_market(
        &mut self,
        base_currency: String,
        quote_currency: String,
        market_id: String,
    ) -> (r: Response)
        requires
            old(self)@.wf(),
        ensures
            final(self)@ == set_market(old(self)@, base_currency@, quote_currency@, market_id@),
            r@ == Seq::<MsgModel>::empty(),
    {
        let ghost m0 = self@;
        match self.find_market(&base_currency, &quote_currency) {
            Some(i) => {
                proof {
                    lemma_market_index(m0, i as int);
                }
                self.market_ids[i].market_id = market_id;
                assert(self@.markets =~= set_market(m0, base_currency@, quote_currency@, market_id@).markets);
            },
            None => {
                self.market_ids.push(MarketEntry { base_currency, quote_currency, market_id });
                assert(self@.markets =~= set_market(m0, base_currency@, quote_currency@, market_id@).markets);
            },
        }
        Response::new()
    }

    /// Forgets the market identifier of a currency pair.
    pub fn execute_remove_market(&mut self, base_currency: String, quote_currency: String) -> (r: Response)
        requires
            old(self)@.wf(),
        ensures
            final(self)@ == remove_market(old(self)@, base_currency@, quote_currency@),
            r@ == Seq::<MsgModel>::empty(),
    {
        let ghost m0 = self@;
        match self.find_market(&base_currency, &quote_currency) {
            Some(i) => {
                proof {
                    lemma_market_index(m0, i as int);
                }
                self.market_ids.remove(i);
                assert(self@.markets =~= remove_market(m0, base_currency@, quote_currency@).markets);
            },
            None => {},
        }
        Response::new()
    }

    /// Asks the token factory to set a denomination's metadata.
    pub fn execute_set_token_metadata(
        &self,
        denom: String,
        denom_name: String,
        symbol: String,
        decimals: u8,
    ) -> (r: Response)
        ensures
            r@ == seq![MsgModel::SetTokenMetadata { denom, name: denom_name, symbol, decimals }],
    {
        let mut messages: Vec<ContractMsg> = Vec::new();
        messages.push(ContractMsg::SetTokenMetadata { denom, name: denom_name, symbol, decimals });
        let resp = Response { messages };
        assert(resp@ =~= seq![MsgModel::SetTokenMetadata { denom, name: denom_name, symbol, decimals }]);
        resp
    }

    /// Checks that the sender is the administrator, then carries out `msg`.
    pub fn route_admin_execute(
        &mut self,
        env: &Env,
        info: &MessageInfo,
        msg: AdminExecuteMsg,
        validated_admin: Result<String, StdError>,
    ) -> (r: Result<Response, ContractError>)
        requires
            old(self)@.wf(),
        ensures
            final(self)@.wf(),
            match r {
                Ok(resp) => admin_outcome(old(self)@, *env, *info, msg, validated_admin) == Ok::<
                    (ContractModel, Seq<MsgModel>),
                    ErrorModel,
                >((final(self)@, resp@)),
                Err(e) => admin_outcome(old(self)@, *env, *info, msg, validated_admin) == Err::<
                    (ContractModel, Seq<MsgModel>),
                    ErrorModel,
                >(e@) && final(self)@ == old(self)@,
            },
    {
        let ghost m0 = self@;
        let authorized = match &self.admin {
            Some(admin) => *admin == info.sender,
            None => false,
        };
        if !authorized {
            return Err(ContractError::Unauthorized);
        }
        match msg {
            AdminExecuteMsg::UpdateAdmin { new_admin: _ } => {
                let r = self.update_admin(validated_admin);
                proof {
                    lemma_positions_frame(m0, self@);
                }
                r
            },
            AdminExecuteMsg::CreateDebtToken { subdenom, expiry } => {
                proof {
                    lemma_set_debt_expiry_wf(m0, factory_denom(env.contract_address@, subdenom@), expiry);
                }
                Ok(self.execute_create_debt_token(env, subdenom, expiry))
            },
            AdminExecuteMsg::RegisterDebtToken { denom, expiry } => {
                proof {
                    lemma_set_debt_expiry_wf(m0, denom@, expiry);
                }
                Ok(self.execute_register_debt_token(denom, expiry))
            },
            AdminExecuteMsg::MintDenom { mint_data } => Ok(self.execute_mint_denom(env, info, mint_data)),
            AdminExecuteMsg::RegisterMarket { base_currency, quote_currency, market_id } => {
                proof {
                    lemma_set_market_wf(m0, base_currency@, quote_currency@, market_id@);
                }
                Ok(self.execute_register_market(base_currency, quote_currency, market_id))
            },
            AdminExecuteMsg::RemoveMarket { base_currency, quote_currency } => {
                proof {
                    lemma_remove_market_wf(m0, base_currency@, quote_currency@);
                }
                Ok(self.execute_remove_market(base_currency, quote_currency))
            },
            AdminExecuteMsg::SetTokenMetadata { denom, denom_name, symbol, decimals } => Ok(
                self.execute_set_token_metadata(denom, denom_name, symbol, decimals),
            ),
        }
    }
}

} // verus!
