//! Minting, repaying and liquidating debt positions.
//!
//! Each operation is specified by a function on the model of the state that
//! gives the new model and the messages to carry out, or the error. Market
//! prices come from the chain's exchange module; they are the arguments
//! `*_price`, each the mid price the chain reported for the market named in
//! the operation's description (`None` where it reported none).
use crate::decimal::{
    fp_div, fp_div_call, fp_div_defined, fp_le, fp_le_call, fp_mul_int,
    fp_mul_int_call, fp_mul_int_fits, fp_one, fp_to_units, pow128, units_fit, Decimal, Fp, mul_int_fits, div_defined,
};
use crate::error::{market_not_found, market_not_found_error, ContractError, ErrorModel};
use crate::msg::{ContractMsg, Env, MessageInfo, MsgModel, Response};
use crate::state::{lemma_debt_index, lemma_position_index, lemma_user_index, Contract, ContractModel, MintPosition, UserPositions};
use crate::structs::{Coin, DebtTokenStatus, MintPositionRecord};
use crate::utils::{validate_debt_token, validate_single_fund};
use vstd::prelude::*;

verus! {

/// The quote currency every market is priced in.
pub open spec fn usdt() -> Seq<char> {
    "usdt"@
}

/// The only collateral accepted for minting.
pub open spec fn inj() -> Seq<char> {
    "inj"@
}

/// The scalar `amount as i128` by which a price is multiplied.
pub open spec fn as_factor(amount: u128) -> int {
    (amount as i128) as int
}

/// The value of `amount` units at `price`, as `price.mul(amount as i128)`.
pub open spec fn valuation(price: Decimal, amount: u128) -> Fp {
    fp_mul_int(price@, as_factor(amount))
}

// ---------------------------------------------------------------------------
// Mint
// ---------------------------------------------------------------------------

/// The model after opening position `m.tracker_mint_id` for `minter`.
pub open spec fn open_position(m: ContractModel, minter: String, record: MintPositionRecord) -> ContractModel {
    let id = m.tracker_mint_id;
    ContractModel {
        tracker_mint_id: (id + 1) as u64,
        positions: m.positions.push(MintPosition { id, minter, record }),
        user_positions: if m.has_user(minter@) {
            let ui = m.user_index(minter@);
            m.user_positions.update(ui, (m.user_positions[ui].0, m.user_positions[ui].1.push(id)))
        } else {
            m.user_positions.push((minter, seq![id]))
        },
        ..m
    }
}

/// What minting `quantity` of `target_denom` does: the checks in the order
/// the contract makes them, then the collateral test (the loan-to-value
/// ratio `debt value / deposit value` must be lower than the collateral
/// ratio, and is refused where it reaches it), and on success a new
/// position and one message minting the tokens to the sender.
/// `inj_price` is the mid price of the `inj`/`usdt` market, `debt_price` that
/// of the `target_denom`/`usdt` market.
pub open spec fn mint_outcome(
    m: ContractModel,
    env: Env,
    info: MessageInfo,
    target_denom: String,
    quantity: u128,
    inj_price: Option<Decimal>,
    debt_price: Option<Decimal>,
) -> Result<(ContractModel, Seq<MsgModel>), ErrorModel> {
    let funds = info.funds@;
    if funds.len() != 1 {
        Err(ErrorModel::InvalidFunds)
    } else if funds[0].denom@ != inj() {
        Err(ErrorModel::InjRequiredMint)
    } else if !m.has_debt_token(target_denom@) {
        Err(ErrorModel::UnknownToken)
    } else if !(m.debt_expiry(target_denom@) > env.block_time) {
        Err(ErrorModel::TokenHasExpired)
    } else if !m.has_market(inj(), usdt()) {
        Err(market_not_found())
    } else if inj_price is None {
        Err(ErrorModel::NoValidMidpriceFound)
    } else if !m.has_market(target_denom@, usdt()) {
        Err(ErrorModel::UnknownMarket)
    } else if debt_price is None {
        Err(ErrorModel::NoValidMidpriceFound)
    } else {
        let deposit = valuation(inj_price.unwrap(), funds[0].amount);
        let debt = valuation(debt_price.unwrap(), quantity);
        if fp_le(m.collateral_ratio@, fp_div(debt, deposit)) {
            Err(ErrorModel::InsufficientCollateral { required_collateral_ratio: m.collateral_ratio })
        } else {
            let minted = Coin { denom: target_denom, amount: quantity };
            Ok(
                (
                    open_position(
                        m,
                        info.sender,
                        MintPositionRecord { collateral_asset: funds[0], minted_asset: minted },
                    ),
                    seq![
                        MsgModel::MintTokens {
                            sender: env.contract_address,
                            amount: minted,
                            mint_to: info.sender,
                        },
                    ],
                ),
            )
        }
    }
}

/// Where minting reaches its arithmetic, the arithmetic does not panic: the
/// two valuations fit in 256 bits, the deposit value can divide, and the
/// position counter can advance.
pub open spec fn mint_arithmetic_defined(
    m: ContractModel,
    env: Env,
    info: MessageInfo,
    target_denom: String,
    quantity: u128,
    inj_price: Option<Decimal>,
    debt_price: Option<Decimal>,
) -> bool {
    let funds = info.funds@;
    let reaches_deposit = funds.len() == 1 && funds[0].denom@ == inj() && m.has_debt_token(
        target_denom@,
    ) && m.debt_expiry(target_denom@) > env.block_time && m.has_market(inj(), usdt())
        && inj_price is Some;
    let reaches_debt = reaches_deposit && m.has_market(target_denom@, usdt()) && debt_price is Some;
    &&& reaches_deposit ==> fp_mul_int_fits(inj_price.unwrap()@, as_factor(funds[0].amount))
    &&& reaches_debt ==> {
        &&& fp_mul_int_fits(debt_price.unwrap()@, as_factor(quantity))
        &&& fp_div_defined(
            valuation(debt_price.unwrap(), quantity),
            valuation(inj_price.unwrap(), funds[0].amount),
        )
        &&& m.tracker_mint_id < u64::MAX
    }
}

impl Contract {
    /// Mints `quantity` of the debt token `target_denom` against the single
    /// coin of `inj` sent with the message.
    pub fn execute_mint(
        &mut self,
        env: &Env,
        info: MessageInfo,
        target_denom: String,
        quantity: u128,
        inj_price: Option<Decimal>,
        debt_price: Option<Decimal>,
    ) -> (r: Result<Response, ContractError>)
        requires
            old(self)@.wf(),
            mint_arithmetic_defined(
                old(self)@,
                *env,
                info,
                target_denom,
                quantity,
                inj_price,
                debt_price,
            ),
        ensures
            final(self)@.wf(),
            match r {
                Ok(resp) => mint_outcome(
                    old(self)@,
                    *env,
                    info,
                    target_denom,
                    quantity,
                    inj_price,
                    debt_price,
                ) == Ok::<(ContractModel, Seq<MsgModel>), ErrorModel>((final(self)@, resp@)),
                Err(e) => mint_outcome(
                    old(self)@,
                    *env,
                    info,
                    target_denom,
                    quantity,
                    inj_price,
                    debt_price,
                ) == Err::<(ContractModel, Seq<MsgModel>), ErrorModel>(e@) && final(self)@ == old(
                    self,
                )@,
            },
    {
        let ghost m0 = self@;
        let ghost info0 = info;
        let sender = info.sender;
        let user_funds = match validate_single_fund(info.funds) {
            Ok(c) => c,
            Err(e) => {
                return Err(e);
            },
        };
        let inj_denom = "inj".to_owned();
        let usdt_denom = "usdt".to_owned();
        if user_funds.denom != inj_denom {
            return Err(ContractError::InjRequiredMint);
        }
        match validate_debt_token(self, target_denom.clone(), env.block_time) {
            Err(e) => {
                return Err(e);
            },
            Ok(DebtTokenStatus::Expired) => {
                return Err(ContractError::TokenHasExpired);
            },
            Ok(DebtTokenStatus::Live) => {},
        }
        if self.find_market(&inj_denom, &usdt_denom).is_none() {
            return Err(market_not_found_error());
        }
        let midprice_inj_usdt = match inj_price {
            None => {
                return Err(ContractError::NoValidMidpriceFound);
            },
            Some(p) => p,
        };
        let deposit_value_usdt = fp_mul_int_call(&midprice_inj_usdt, user_funds.amount as i128);
        if self.find_market(&target_denom, &usdt_denom).is_none() {
            return Err(ContractError::UnknownMarket);
        }
        let midprice_debt_market = match debt_price {
            None => {
                return Err(ContractError::NoValidMidpriceFound);
            },
            Some(p) => p,
        };
        let debt_value_usdt = fp_mul_int_call(&midprice_debt_market, quantity as i128);
        let ratio = fp_div_call(&debt_value_usdt, &deposit_value_usdt);
        if fp_le_call(&self.collateral_ratio, &ratio) {
            return Err(
                ContractError::InsufficientCollateral {
                    required_collateral_ratio: self.collateral_ratio,
                },
            );
        }
        let current_mint_id = self.tracker_mint_id;
        let ghost record = MintPositionRecord {
            collateral_asset: user_funds,
            minted_asset: Coin { denom: target_denom, amount: quantity },
        };
        self.add_user_position(&sender, current_mint_id);
        self.mint_positions.push(
            MintPosition {
                id: current_mint_id,
                minter: sender.clone(),
                record: MintPositionRecord {
                    collateral_asset: user_funds,
                    minted_asset: Coin { denom: target_denom.clone(), amount: quantity },
                },
            },
        );
        self.tracker_mint_id = current_mint_id + 1;
        let mut messages: Vec<ContractMsg> = Vec::new();
        messages.push(
            ContractMsg::MintTokens {
                sender: env.contract_address.clone(),
                amount: Coin { denom: target_denom, amount: quantity },
                mint_to: sender,
            },
        );
        let resp = Response { messages };
        proof {
            assert(self@.user_positions =~= open_position(m0, info0.sender, record).user_positions);
            assert(self@.positions =~= open_position(m0, info0.sender, record).positions);
            assert(resp@ =~= mint_outcome(m0, *env, info0, target_denom, quantity, inj_price, debt_price)->Ok_0.1);
            lemma_open_position_wf(m0, info0.sender, record);
        }
        Ok(resp)
    }

    /// Appends `id` to `user`'s list of positions, creating the list if the
    /// user has none.
    fn add_user_position(&mut self, user: &String, id: u64)
        requires
            old(self)@.user_lists_sound(),
        ensures
            final(self)@ == (ContractModel {
                user_positions: if old(self)@.has_user(user@) {
                    let ui = old(self)@.user_index(user@);
                    old(self)@.user_positions.update(
                        ui,
                        (old(self)@.user_positions[ui].0, old(self)@.user_positions[ui].1.push(id)),
                    )
                } else {
                    old(self)@.user_positions.push((*user, seq![id]))
                },
                ..old(self)@
            }),
    {
        let ghost m0 = self@;
        match self.find_user(user) {
            Some(ui) => {
                proof {
                    lemma_user_index(m0, ui as int);
                }
                self.user_mint_positions[ui].ids.push(id);
                assert(self@.user_positions =~= m0.user_positions.update(
                    ui as int,
                    (m0.user_positions[ui as int].0, m0.user_positions[ui as int].1.push(id)),
                ));
            },
            None => {
                let mut ids: Vec<u64> = Vec::new();
                ids.push(id);
                self.user_mint_positions.push(UserPositions { user: user.clone(), ids });
                assert(self@.user_positions =~= m0.user_positions.push((*user, seq![id])));
            },
        }
    }
}

/// Opening a position keeps the invariant.
pub proof fn lemma_open_position_wf(m: ContractModel, minter: String, record: MintPositionRecord)
    requires
        m.wf(),
        m.tracker_mint_id < u64::MAX,
    ensures
        open_position(m, minter, record).wf(),
{
    let n = open_position(m, minter, record);
    let id = m.tracker_mint_id;
    assert(n.positions_ordered());
    // one list per user, identifiers distinct and below the tracker
    if m.has_user(minter@) {
        let ui = m.user_index(minter@);
        assert forall|i: int, k1: int, k2: int|
            0 <= i < n.user_positions.len() && 0 <= k1 < k2 < n.user_positions[i].1.len()
                implies #[trigger] n.user_positions[i].1[k1] != #[trigger] n.user_positions[i].1[k2] by {
            if i == ui {
                if k2 == m.user_positions[ui].1.len() {
                    assert(m.user_positions[ui].1[k1] < id);
                }
            }
        }
        assert forall|i: int, k: int|
            0 <= i < n.user_positions.len() && 0 <= k < n.user_positions[i].1.len()
                implies #[trigger] n.user_positions[i].1[k] < n.tracker_mint_id by {
            if i == ui && k < m.user_positions[ui].1.len() {
                assert(m.user_positions[ui].1[k] < id);
            }
        }
    } else {
        assert forall|i: int, j: int|
            0 <= i < j < n.user_positions.len() implies #[trigger] n.user_positions[i].0@
                != #[trigger] n.user_positions[j].0@ by {
            if j == m.user_positions.len() {
                assert(m.user_positions[i].0@ != minter@);
            }
        }
        assert forall|i: int, k: int|
            0 <= i < n.user_positions.len() && 0 <= k < n.user_positions[i].1.len()
                implies #[trigger] n.user_positions[i].1[k] < n.tracker_mint_id by {
            if i < m.user_positions.len() {
                assert(m.user_positions[i].1[k] < id);
            }
        }
    }
    assert(n.user_lists_sound());
    // every position is listed under its minter
    assert forall|i: int| 0 <= i < n.positions.len() implies #[trigger] n.has_user(
        n.positions[i].minter@,
    ) && n.user_ids(n.positions[i].minter@).contains(n.positions[i].id) by {
        let u = n.positions[i].minter@;
        if i < m.positions.len() {
            assert(m.has_user(m.positions[i].minter@));
            let j = m.user_index(u);
            lemma_user_index(m, j);
            lemma_user_index(n, j);
            let k = choose|k: int| 0 <= k < m.user_positions[j].1.len() && m.user_positions[j].1[k] == m.positions[i].id;
            assert(n.user_positions[j].1[k] == m.positions[i].id);
        } else {
            let j = if m.has_user(minter@) { m.user_index(minter@) } else { m.user_positions.len() as int };
            if m.has_user(minter@) {
                lemma_user_index(m, j);
            }
            assert(n.user_positions[j].0@ == minter@);
            lemma_user_index(n, j);
            assert(n.user_positions[j].1.last() == id);
        }
    }
    assert(n.keys_unique());
}


// ---------------------------------------------------------------------------
// Repay
// ---------------------------------------------------------------------------

/// What repaying position `position_id` with the single coin sent does: the
/// coin must be of the minted denomination and no more than the debt; the
/// coin is burnt, and the debt goes down by its amount. A position whose debt
/// reaches zero is closed and its collateral sent back to the minter.
pub open spec fn repay_outcome(m: ContractModel, env: Env, info: MessageInfo, position_id: u64) -> Result<
    (ContractModel, Seq<MsgModel>),
    ErrorModel,
> {
    let funds = info.funds@;
    if funds.len() != 1 {
        Err(ErrorModel::InvalidFunds)
    } else if !m.has_position(position_id) {
        Err(ErrorModel::InvalidPositionId)
    } else {
        let p = m.position(position_id);
        let paid = funds[0];
        let debt = p.record.minted_asset;
        if debt.denom@ != paid.denom@ {
            Err(ErrorModel::MismatchDenomRedeem { denom_debt: debt.denom@ })
        } else if paid.amount > debt.amount {
            Err(ErrorModel::InvalidFunds)
        } else {
            let i = m.position_index(position_id);
            let burn = MsgModel::BurnTokens { sender: env.contract_address, amount: paid };
            let remaining = (debt.amount - paid.amount) as u128;
            if remaining == 0 {
                Ok(
                    (
                        ContractModel { positions: m.positions.remove(i), ..m },
                        seq![
                            burn,
                            MsgModel::BankSend {
                                to_address: p.minter,
                                amount: seq![p.record.collateral_asset],
                            },
                        ],
                    ),
                )
            } else {
                let reduced = MintPosition {
                    record: MintPositionRecord {
                        minted_asset: Coin { amount: remaining, ..debt },
                        ..p.record
                    },
                    ..p
                };
                Ok((ContractModel { positions: m.positions.update(i, reduced), ..m }, seq![burn]))
            }
        }
    }
}

impl Contract {
    /// Repays (part of) the debt of position `position_id` with the single
    /// coin sent with the message.
    pub fn execute_repay(&mut self, env: &Env, info: MessageInfo, position_id: u64) -> (r: Result<
        Response,
        ContractError,
    >)
        requires
            old(self)@.wf(),
        ensures
            final(self)@.wf(),
            match r {
                Ok(resp) => repay_outcome(old(self)@, *env, info, position_id) == Ok::<
                    (ContractModel, Seq<MsgModel>),
                    ErrorModel,
                >((final(self)@, resp@)),
                Err(e) => repay_outcome(old(self)@, *env, info, position_id) == Err::<
                    (ContractModel, Seq<MsgModel>),
                    ErrorModel,
                >(e@) && final(self)@ == old(self)@,
            },
    {
        let ghost m0 = self@;
        let ghost info0 = info;
        let user_funds = match validate_single_fund(info.funds) {
            Ok(c) => c,
            Err(e) => {
                return Err(e);
            },
        };
        let i = match self.find_position(position_id) {
            None => {
                return Err(ContractError::InvalidPositionId);
            },
            Some(i) => i,
        };
        proof {
            lemma_position_index(m0, i as int);
        }
        if self.mint_positions[i].record.minted_asset.denom != user_funds.denom {
            return Err(
                ContractError::MismatchDenomRedeem {
                    denom_debt: self.mint_positions[i].record.minted_asset.denom.clone(),
                },
            );
        }
        if user_funds.amount > self.mint_positions[i].record.minted_asset.amount {
            return Err(ContractError::InvalidFunds);
        }
        let mut messages: Vec<ContractMsg> = Vec::new();
        messages.push(
            ContractMsg::BurnTokens { sender: env.contract_address.clone(), amount: user_funds.clone() },
        );
        let remaining = self.mint_positions[i].record.minted_asset.amount - user_funds.amount;
        if remaining == 0 {
            let closed = self.mint_positions.remove(i);
            let mut refund: Vec<Coin> = Vec::new();
            refund.push(closed.record.collateral_asset);
            messages.push(ContractMsg::BankSend { to_address: closed.minter, amount: refund });
            proof {
                lemma_remove_position_wf(m0, i as int);
            }
        } else {
            self.mint_positions[i].record.minted_asset.amount = remaining;
            proof {
                assert(self@.positions[i as int].id == m0.positions[i as int].id);
                assert(self@.positions[i as int].minter == m0.positions[i as int].minter);
                lemma_update_record_wf(m0, self@, i as int);
            }
        }
        let resp = Response { messages };
        proof {
            assert(self@.user_positions =~= m0.user_positions);
            assert(resp@ =~= repay_outcome(m0, *env, info0, position_id)->Ok_0.1);
            assert(self@.positions =~= repay_outcome(m0, *env, info0, position_id)->Ok_0.0.positions);
        }
        Ok(resp)
    }
}

/// Closing the position at index `i`, leaving the users' lists as they are,
/// keeps the invariant.
pub proof fn lemma_remove_position_wf(m: ContractModel, i: int)
    requires
        m.wf(),
        0 <= i < m.positions.len(),
    ensures
        (ContractModel { positions: m.positions.remove(i), ..m }).wf(),
{
    let n = ContractModel { positions: m.positions.remove(i), ..m };
    assert forall|a: int, b: int| 0 <= a < b < n.positions.len() implies #[trigger] n.positions[a].id
        < #[trigger] n.positions[b].id by {
        let a0 = if a < i { a } else { a + 1 };
        let b0 = if b < i { b } else { b + 1 };
        assert(m.positions[a0].id < m.positions[b0].id);
    }
    assert forall|a: int| 0 <= a < n.positions.len() implies #[trigger] n.has_user(
        n.positions[a].minter@,
    ) && n.user_ids(n.positions[a].minter@).contains(n.positions[a].id) by {
        let a0 = if a < i { a } else { a + 1 };
        assert(n.positions[a] == m.positions[a0]);
        assert(m.has_user(m.positions[a0].minter@));
        assert(m.user_ids(m.positions[a0].minter@).contains(m.positions[a0].id));
        assert(n.user_ids(n.positions[a].minter@) == m.user_ids(m.positions[a0].minter@));
    }
}

/// Changing the record of the position at index `i`, keeping its identifier
/// and minter, keeps the invariant.
pub proof fn lemma_update_record_wf(m: ContractModel, n: ContractModel, i: int)
    requires
        m.wf(),
        0 <= i < m.positions.len(),
        n.positions.len() == m.positions.len(),
        forall|j: int| 0 <= j < m.positions.len() && j != i ==> n.positions[j] == m.positions[j],
        n.positions[i].id == m.positions[i].id,
        n.positions[i].minter == m.positions[i].minter,
        n.tracker_mint_id == m.tracker_mint_id,
        n.user_positions == m.user_positions,
        n.debt_expiration == m.debt_expiration,
        n.markets == m.markets,
    ensures
        n.wf(),
{
    assert forall|a: int, b: int| 0 <= a < b < n.positions.len() implies #[trigger] n.positions[a].id
        < #[trigger] n.positions[b].id by {
        assert(m.positions[a].id < m.positions[b].id);
    }
    assert forall|a: int| 0 <= a < n.positions.len() implies #[trigger] n.has_user(
        n.positions[a].minter@,
    ) && n.user_ids(n.positions[a].minter@).contains(n.positions[a].id) by {
        assert(m.has_user(m.positions[a].minter@));
    }
    assert(n.positions_ordered());
    assert(n.user_lists_sound());
    assert(n.keys_unique());
}


// ---------------------------------------------------------------------------
// Liquidate
// ---------------------------------------------------------------------------

/// `s` with every occurrence of `x` left out, the rest in order.
pub open spec fn without(s: Seq<u64>, x: u64) -> Seq<u64>
    decreases s.len(),
{
    if s.len() == 0 {
        s
    } else {
        let rest = without(s.drop_last(), x);
        if s.last() != x {
            rest.push(s.last())
        } else {
            rest
        }
    }
}

/// An element is left in `without(s, x)` exactly when it is in `s` and is
/// not `x`; no element is repeated where `s` repeats none; every element
/// stays below any bound of `s`.
pub proof fn lemma_without(s: Seq<u64>, x: u64, bound: int)
    ensures
        forall|y: u64| #[trigger] without(s, x).contains(y) <==> (s.contains(y) && y != x),
        (forall|k1: int, k2: int| 0 <= k1 < k2 < s.len() ==> s[k1] != s[k2]) ==> (forall|
            k1: int,
            k2: int,
        | 0 <= k1 < k2 < without(s, x).len() ==> #[trigger] without(s, x)[k1] != #[trigger] without(
            s,
            x,
        )[k2]),
        (forall|k: int| 0 <= k < s.len() ==> s[k] < bound) ==> (forall|k: int|
            0 <= k < without(s, x).len() ==> #[trigger] without(s, x)[k] < bound),
    decreases s.len(),
{
    if s.len() > 0 {
        let d = s.drop_last();
        lemma_without(d, x, bound);
        let r = without(d, x);
        assert forall|y: u64| #[trigger] without(s, x).contains(y) <==> (s.contains(y) && y != x) by {
            if s.contains(y) && y != x {
                let k = choose|k: int| 0 <= k < s.len() && s[k] == y;
                if k < d.len() {
                    assert(d[k] == y);
                    assert(d.contains(y));
                    assert(r.contains(y));
                    let k3 = choose|k3: int| 0 <= k3 < r.len() && r[k3] == y;
                    assert(without(s, x)[k3] == y);
                } else {
                    assert(without(s, x).last() == y);
                }
            }
            if without(s, x).contains(y) {
                let k = choose|k: int| 0 <= k < without(s, x).len() && without(s, x)[k] == y;
                if k < r.len() {
                    assert(r[k] == y);
                    assert(r.contains(y));
                    let k2 = choose|k2: int| 0 <= k2 < d.len() && d[k2] == y;
                    assert(s[k2] == y);
                } else {
                    assert(s[s.len() - 1] == y);
                }
            }
        }
        if forall|k1: int, k2: int| 0 <= k1 < k2 < s.len() ==> s[k1] != s[k2] {
            assert forall|k1: int, k2: int| 0 <= k1 < k2 < d.len() implies d[k1] != d[k2] by {
                assert(s[k1] != s[k2]);
            }
            if s.last() != x {
                assert forall|k1: int, k2: int| 0 <= k1 < k2 < without(s, x).len() implies #[trigger] without(
                    s,
                    x,
                )[k1] != #[trigger] without(s, x)[k2] by {
                    if k2 == r.len() {
                        assert(r.contains(r[k1]));
                        assert(d.contains(r[k1]));
                        let j = choose|j: int| 0 <= j < d.len() && d[j] == r[k1];
                        assert(s[j] != s[s.len() - 1]);
                    } else {
                        assert(r[k1] != r[k2]);
                    }
                }
            }
        }
        if forall|k: int| 0 <= k < s.len() ==> s[k] < bound {
            assert forall|k: int| 0 <= k < d.len() implies d[k] < bound by {
                assert(s[k] < bound);
            }
        }
    }
}

/// Builds `without(ids, id)`.
fn ids_without(ids: &Vec<u64>, id: u64) -> (r: Vec<u64>)
    ensures
        r@ == without(ids@, id),
{
    let mut out: Vec<u64> = Vec::new();
    let mut k: usize = 0;
    while k < ids.len()
        invariant
            k <= ids@.len(),
            out@ == without(ids@.take(k as int), id),
        decreases ids@.len() - k,
    {
        assert(ids@.take(k as int + 1).drop_last() =~= ids@.take(k as int));
        if ids[k] != id {
            out.push(ids[k]);
        }
        k = k + 1;
    }
    assert(ids@.take(ids@.len() as int) =~= ids@);
    out
}

/// The model after closing position `id` (at index `i`) of `minter`: the
/// position leaves, and so does its identifier from the minter's list.
pub open spec fn close_liquidated(m: ContractModel, i: int, minter: Seq<char>, id: u64) -> ContractModel {
    let ui = m.user_index(minter);
    ContractModel {
        positions: m.positions.remove(i),
        user_positions: m.user_positions.update(
            ui,
            (m.user_positions[ui].0, without(m.user_positions[ui].1, id)),
        ),
        ..m
    }
}

/// The whole units of a fixed-point value: its magnitude over 10^18,
/// rounded down.
pub open spec fn units(x: Fp) -> int {
    x.num / fp_one()
}

/// The collateral that pays off a liquidated debt: the units of
/// `debt value / collateral price`.
pub open spec fn seized_units(debt_value: Fp, collateral_price: Decimal) -> int {
    units(fp_div(debt_value, collateral_price@))
}

/// The liquidator's fee: the units of `fee pct * collateral amount`.
pub open spec fn fee_units(m: ContractModel, collateral_amount: u128) -> int {
    units(valuation(m.liquidation_fee_pct, collateral_amount))
}

/// What liquidating position `position_id` does. The liquidator must send
/// exactly the minted coin; the position must be under-collateralised:
/// `debt value / collateral value` above the collateral ratio. The liquidator
/// then receives, in whole units of the collateral, the collateral worth the
/// debt (`debt value / collateral price`) plus the fee
/// (`fee pct * collateral amount`), the minter the rest of the collateral,
/// and the sent coin is burnt. `collateral_price` is the mid price of the
/// collateral's `usdt` market, `debt_price` that of the minted denomination's.
pub open spec fn liquidate_outcome(
    m: ContractModel,
    env: Env,
    info: MessageInfo,
    position_id: u64,
    collateral_price: Option<Decimal>,
    debt_price: Option<Decimal>,
) -> Result<(ContractModel, Seq<MsgModel>), ErrorModel> {
    let funds = info.funds@;
    if funds.len() != 1 {
        Err(ErrorModel::InvalidFunds)
    } else if !m.has_position(position_id) {
        Err(ErrorModel::InvalidPositionId)
    } else {
        let p = m.position(position_id);
        let sent = funds[0];
        let collateral = p.record.collateral_asset;
        let minted = p.record.minted_asset;
        if !sent.same_as(minted) {
            Err(ErrorModel::MismatchFundsMintedAssetsInLiquidation)
        } else if !m.has_market(collateral.denom@, usdt()) {
            Err(market_not_found())
        } else if collateral_price is None {
            Err(ErrorModel::NoValidMidpriceFound)
        } else if !m.has_market(minted.denom@, usdt()) {
            Err(market_not_found())
        } else if debt_price is None {
            Err(ErrorModel::NoValidMidpriceFound)
        } else {
            let collateral_value = valuation(collateral_price.unwrap(), collateral.amount);
            let debt_value = valuation(debt_price.unwrap(), minted.amount);
            if fp_le(fp_div(debt_value, collateral_value), m.collateral_ratio@) {
                Err(ErrorModel::PositionEnoughCapitalNoLiquidation)
            } else {
                let from_minted = seized_units(debt_value, collateral_price.unwrap());
                let fee = fee_units(m, collateral.amount);
                let sent_back = collateral.amount - from_minted - fee;
                Ok(
                    (
                        close_liquidated(m, m.position_index(position_id), p.minter@, position_id),
                        seq![
                            MsgModel::BankSend {
                                to_address: info.sender,
                                amount: seq![
                                    Coin {
                                        denom: collateral.denom,
                                        amount: (from_minted + fee) as u128,
                                    },
                                ],
                            },
                            MsgModel::BankSend {
                                to_address: p.minter,
                                amount: seq![
                                    Coin { denom: collateral.denom, amount: sent_back as u128 },
                                ],
                            },
                            MsgModel::BurnTokens { sender: env.contract_address, amount: sent },
                        ],
                    ),
                )
            }
        }
    }
}

/// Where liquidation reaches its arithmetic, the arithmetic does not panic:
/// the valuations fit, the quotients are defined, the two amounts in units
/// fit in 128 bits, and together the collateral covers them.
pub open spec fn liquidate_arithmetic_defined(
    m: ContractModel,
    info: MessageInfo,
    position_id: u64,
    collateral_price: Option<Decimal>,
    debt_price: Option<Decimal>,
) -> bool {
    let funds = info.funds@;
    let p = m.position(position_id);
    let collateral = p.record.collateral_asset;
    let minted = p.record.minted_asset;
    let reaches_collateral = funds.len() == 1 && m.has_position(position_id) && funds[0].same_as(
        minted,
    ) && m.has_market(collateral.denom@, usdt()) && collateral_price is Some;
    let reaches_debt = reaches_collateral && m.has_market(minted.denom@, usdt()) && debt_price is Some;
    let collateral_value = valuation(collateral_price.unwrap(), collateral.amount);
    let debt_value = valuation(debt_price.unwrap(), minted.amount);
    let proceeds = reaches_debt && !fp_le(fp_div(debt_value, collateral_value), m.collateral_ratio@);
    let from_minted = seized_units(debt_value, collateral_price.unwrap());
    let fee = fee_units(m, collateral.amount);
    &&& reaches_collateral ==> fp_mul_int_fits(
        collateral_price.unwrap()@,
        as_factor(collateral.amount),
    )
    &&& reaches_debt ==> fp_mul_int_fits(debt_price.unwrap()@, as_factor(minted.amount))
        && fp_div_defined(debt_value, collateral_value)
    &&& proceeds ==> {
        &&& fp_div_defined(debt_value, collateral_price.unwrap()@)
        &&& from_minted < pow128()
        &&& fp_mul_int_fits(m.liquidation_fee_pct@, as_factor(collateral.amount))
        &&& fee < pow128()
        &&& from_minted + fee <= collateral.amount
    }
}

impl Contract {
    /// Liquidates position `position_id`, which the sender pays off with the
    /// single coin sent with the message.
    pub fn execute_liquidate(
        &mut self,
        env: &Env,
        info: MessageInfo,
        position_id: u64,
        collateral_price: Option<Decimal>,
        debt_price: Option<Decimal>,
    ) -> (r: Result<Response, ContractError>)
        requires
            old(self)@.wf(),
            liquidate_arithmetic_defined(
                old(self)@,
                info,
                position_id,
                collateral_price,
                debt_price,
            ),
        ensures
            final(self)@.wf(),
            match r {
                Ok(resp) => liquidate_outcome(
                    old(self)@,
                    *env,
                    info,
                    position_id,
                    collateral_price,
                    debt_price,
                ) == Ok::<(ContractModel, Seq<MsgModel>), ErrorModel>((final(self)@, resp@)),
                Err(e) => liquidate_outcome(
                    old(self)@,
                    *env,
                    info,
                    position_id,
                    collateral_price,
                    debt_price,
                ) == Err::<(ContractModel, Seq<MsgModel>), ErrorModel>(e@) && final(self)@ == old(
                    self,
                )@,
            },
    {
        let ghost m0 = self@;
        let ghost info0 = info;
        let sender = info.sender;
        let user_funds = match validate_single_fund(info.funds) {
            Ok(c) => c,
            Err(e) => {
                return Err(e);
            },
        };
        let i = match self.find_position(position_id) {
            None => {
                return Err(ContractError::InvalidPositionId);
            },
            Some(i) => i,
        };
        proof {
            lemma_position_index(m0, i as int);
        }
        if !user_funds.equals(&self.mint_positions[i].record.minted_asset) {
            return Err(ContractError::MismatchFundsMintedAssetsInLiquidation);
        }
        let usdt_denom = "usdt".to_owned();
        let collateral_denom = self.mint_positions[i].record.collateral_asset.denom.clone();
        let collateral_amount = self.mint_positions[i].record.collateral_asset.amount;
        let minted_denom = self.mint_positions[i].record.minted_asset.denom.clone();
        let minted_amount = self.mint_positions[i].record.minted_asset.amount;
        if self.find_market(&collateral_denom, &usdt_denom).is_none() {
            return Err(market_not_found_error());
        }
        let midprice_collateral_usdt = match collateral_price {
            None => {
                return Err(ContractError::NoValidMidpriceFound);
            },
            Some(p) => p,
        };
        let collateral_value = fp_mul_int_call(&midprice_collateral_usdt, collateral_amount as i128);
        if self.find_market(&minted_denom, &usdt_denom).is_none() {
            return Err(market_not_found_error());
        }
        let midprice_debt_usdt = match debt_price {
            None => {
                return Err(ContractError::NoValidMidpriceFound);
            },
            Some(p) => p,
        };
        let debt_value = fp_mul_int_call(&midprice_debt_usdt, minted_amount as i128);
        let ratio = fp_div_call(&debt_value, &collateral_value);
        if fp_le_call(&ratio, &self.collateral_ratio) {
            return Err(ContractError::PositionEnoughCapitalNoLiquidation);
        }
        let from_minted_value = fp_div_call(&debt_value, &midprice_collateral_usdt);
        let collateral_from_minted = fp_to_units(&from_minted_value);
        let fee_value = fp_mul_int_call(&self.liquidation_fee_pct, collateral_amount as i128);
        let fee_liquidator_amount = fp_to_units(&fee_value);
        let collateral_sent_back = collateral_amount - collateral_from_minted - fee_liquidator_amount;
        let mut messages: Vec<ContractMsg> = Vec::new();
        let mut to_liquidator: Vec<Coin> = Vec::new();
        to_liquidator.push(
            Coin {
                amount: collateral_from_minted + fee_liquidator_amount,
                denom: collateral_denom.clone(),
            },
        );
        messages.push(ContractMsg::BankSend { to_address: sender, amount: to_liquidator });
        let closed = self.mint_positions.remove(i);
        let mut to_minter: Vec<Coin> = Vec::new();
        to_minter.push(Coin { amount: collateral_sent_back, denom: collateral_denom });
        messages.push(ContractMsg::BankSend { to_address: closed.minter.clone(), amount: to_minter });
        messages.push(
            ContractMsg::BurnTokens { sender: env.contract_address.clone(), amount: user_funds },
        );
        proof {
            assert(m0.has_user(closed.minter@));
        }
        let ui = match self.find_user(&closed.minter) {
            Some(ui) => ui,
            None => {
                proof {
                    assert(false);
                }
                0
            },
        };
        proof {
            lemma_user_index(m0, ui as int);
        }
        let kept = ids_without(&self.user_mint_positions[ui].ids, position_id);
        self.user_mint_positions[ui].ids = kept;
        let resp = Response { messages };
        proof {
            let n = close_liquidated(m0, i as int, closed.minter@, position_id);
            assert(self@.user_positions =~= n.user_positions);
            assert(self@.positions =~= n.positions);
            assert(resp@ =~= liquidate_outcome(
                m0,
                *env,
                info0,
                position_id,
                collateral_price,
                debt_price,
            )->Ok_0.1);
            lemma_close_liquidated_wf(m0, i as int, position_id);
        }
        Ok(resp)
    }
}

/// Closing a liquidated position keeps the invariant.
pub proof fn lemma_close_liquidated_wf(m: ContractModel, i: int, id: u64)
    requires
        m.wf(),
        0 <= i < m.positions.len(),
        m.positions[i].id == id,
    ensures
        close_liquidated(m, i, m.positions[i].minter@, id).wf(),
{
    let minter = m.positions[i].minter@;
    let n = close_liquidated(m, i, minter, id);
    let ui = m.user_index(minter);
    assert(m.has_user(minter));
    lemma_user_index(m, ui);
    let old_ids = m.user_positions[ui].1;
    lemma_without(old_ids, id, m.tracker_mint_id as int);
    assert forall|k1: int, k2: int| 0 <= k1 < k2 < old_ids.len() implies old_ids[k1] != old_ids[k2] by {
        assert(m.user_positions[ui].1[k1] != m.user_positions[ui].1[k2]);
    }
    assert forall|k: int| 0 <= k < old_ids.len() implies old_ids[k] < m.tracker_mint_id by {
        assert(m.user_positions[ui].1[k] < m.tracker_mint_id);
    }
    assert forall|a: int, b: int| 0 <= a < b < n.positions.len() implies #[trigger] n.positions[a].id
        < #[trigger] n.positions[b].id by {
        let a0 = if a < i { a } else { a + 1 };
        let b0 = if b < i { b } else { b + 1 };
        assert(m.positions[a0].id < m.positions[b0].id);
    }
    assert(n.positions_ordered());
    assert forall|a: int, b: int| 0 <= a < b < n.user_positions.len() implies #[trigger] n.user_positions[a].0@
        != #[trigger] n.user_positions[b].0@ by {
        assert(m.user_positions[a].0@ != m.user_positions[b].0@);
    }
    assert forall|a: int, k: int|
        0 <= a < n.user_positions.len() && 0 <= k < n.user_positions[a].1.len()
            implies #[trigger] n.user_positions[a].1[k] < n.tracker_mint_id by {
        if a != ui {
            assert(m.user_positions[a].1[k] < m.tracker_mint_id);
        }
    }
    assert forall|a: int, k1: int, k2: int|
        0 <= a < n.user_positions.len() && 0 <= k1 < k2 < n.user_positions[a].1.len()
            implies #[trigger] n.user_positions[a].1[k1] != #[trigger] n.user_positions[a].1[k2] by {
        if a != ui {
            assert(m.user_positions[a].1[k1] != m.user_positions[a].1[k2]);
        }
    }
    assert(n.user_lists_sound());
    assert forall|a: int| 0 <= a < n.positions.len() implies #[trigger] n.has_user(
        n.positions[a].minter@,
    ) && n.user_ids(n.positions[a].minter@).contains(n.positions[a].id) by {
        let a0 = if a < i { a } else { a + 1 };
        assert(n.positions[a] == m.positions[a0]);
        let u = m.positions[a0].minter@;
        assert(m.has_user(u));
        let j = m.user_index(u);
        lemma_user_index(m, j);
        lemma_user_index(n, j);
        assert(m.user_ids(u).contains(m.positions[a0].id));
        assert(m.positions[a0].id != id) by {
            if a0 < i {
                assert(m.positions[a0].id < m.positions[i].id);
            } else {
                assert(m.positions[i].id < m.positions[a0].id);
            }
        }
        if j == ui {
            assert(without(old_ids, id).contains(m.positions[a0].id));
        }
    }
    assert(n.keys_unique());
}


// ---------------------------------------------------------------------------
// Tests of the arithmetic conditions, for callers that cannot prove them
// ---------------------------------------------------------------------------

impl Contract {
    /// Whether minting with these arguments stays clear of the arithmetic
    /// panics (`mint_arithmetic_defined`).
    pub fn mint_arithmetic_ok(
        &self,
        env: &Env,
        info: &MessageInfo,
        target_denom: &String,
        quantity: u128,
        inj_price: &Option<Decimal>,
        debt_price: &Option<Decimal>,
    ) -> (r: bool)
        requires
            self@.wf(),
        ensures
            r == mint_arithmetic_defined(
                self@,
                *env,
                *info,
                *target_denom,
                quantity,
                *inj_price,
                *debt_price,
            ),
    {
        let inj_denom = "inj".to_owned();
        let usdt_denom = "usdt".to_owned();
        if info.funds.len() != 1 || info.funds[0].denom != inj_denom {
            return true;
        }
        match self.find_debt_token(target_denom) {
            None => {
                return true;
            },
            Some(i) => {
                proof {
                    lemma_debt_index(self@, i as int);
                }
                if !(self.debt_expiration[i].expiry > env.block_time) {
                    return true;
                }
            },
        }
        if self.find_market(&inj_denom, &usdt_denom).is_none() {
            return true;
        }
        let p = match inj_price {
            None => {
                return true;
            },
            Some(p) => p,
        };
        let amount = info.funds[0].amount;
        if !mul_int_fits(p, amount as i128) {
            return false;
        }
        if self.find_market(target_denom, &usdt_denom).is_none() {
            return true;
        }
        let d = match debt_price {
            None => {
                return true;
            },
            Some(d) => d,
        };
        if !mul_int_fits(d, quantity as i128) {
            return false;
        }
        let deposit = fp_mul_int_call(p, amount as i128);
        let debt = fp_mul_int_call(d, quantity as i128);
        div_defined(&debt, &deposit) && self.tracker_mint_id < u64::MAX
    }

    /// Whether liquidating with these arguments stays clear of the
    /// arithmetic panics (`liquidate_arithmetic_defined`).
    pub fn liquidate_arithmetic_ok(
        &self,
        info: &MessageInfo,
        position_id: u64,
        collateral_price: &Option<Decimal>,
        debt_price: &Option<Decimal>,
    ) -> (r: bool)
        requires
            self@.wf(),
        ensures
            r == liquidate_arithmetic_defined(
                self@,
                *info,
                position_id,
                *collateral_price,
                *debt_price,
            ),
    {
        let usdt_denom = "usdt".to_owned();
        if info.funds.len() != 1 {
            return true;
        }
        let i = match self.find_position(position_id) {
            None => {
                return true;
            },
            Some(i) => i,
        };
        proof {
            lemma_position_index(self@, i as int);
        }
        let record = &self.mint_positions[i].record;
        if !info.funds[0].equals(&record.minted_asset) {
            return true;
        }
        if self.find_market(&record.collateral_asset.denom, &usdt_denom).is_none() {
            return true;
        }
        let cp = match collateral_price {
            None => {
                return true;
            },
            Some(c) => c,
        };
        let collateral_amount = record.collateral_asset.amount;
        if !mul_int_fits(cp, collateral_amount as i128) {
            return false;
        }
        if self.find_market(&record.minted_asset.denom, &usdt_denom).is_none() {
            return true;
        }
        let dp = match debt_price {
            None => {
                return true;
            },
            Some(d) => d,
        };
        if !mul_int_fits(dp, record.minted_asset.amount as i128) {
            return false;
        }
        let collateral_value = fp_mul_int_call(cp, collateral_amount as i128);
        let debt_value = fp_mul_int_call(dp, record.minted_asset.amount as i128);
        if !div_defined(&debt_value, &collateral_value) {
            return false;
        }
        let ratio = fp_div_call(&debt_value, &collateral_value);
        if fp_le_call(&ratio, &self.collateral_ratio) {
            return true;
        }
        if !div_defined(&debt_value, cp) {
            return false;
        }
        let from_minted_value = fp_div_call(&debt_value, cp);
        if !units_fit(&from_minted_value) {
            return false;
        }
        let from_minted = fp_to_units(&from_minted_value);
        if !mul_int_fits(&self.liquidation_fee_pct, collateral_amount as i128) {
            return false;
        }
        let fee_value = fp_mul_int_call(&self.liquidation_fee_pct, collateral_amount as i128);
        if !units_fit(&fee_value) {
            return false;
        }
        let fee = fp_to_units(&fee_value);
        from_minted <= collateral_amount && fee <= collateral_amount - from_minted
    }
}

} // verus!
