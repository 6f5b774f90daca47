//! Properties of the protocol as a whole, stated over the outcomes of its
//! operations and proved.
use crate::account::{
    empty_eth_account, eth_account_bytes, eth_account_readable, lemma_eth_account_reads_back, merge_eth_account,
    EthAccountModel,
};
use crate::contract::{execute_outcome, full_outcome};
use crate::contract_admin_execute::{
    admin_outcome, factory_denom, is_admin, lemma_remove_market_wf, lemma_set_debt_expiry_wf,
    lemma_set_market_wf, remove_market, set_debt_expiry, set_market,
};
use crate::contract_execute::{
    as_factor, inj, lemma_close_liquidated_wf, units, lemma_open_position_wf, lemma_remove_position_wf,
    lemma_update_record_wf, close_liquidated, fee_units, liquidate_arithmetic_defined, liquidate_outcome, mint_outcome,
    repay_outcome, seized_units, usdt, valuation,
};
use crate::contract_query::{batch, batch_begin, batch_reported, position_reported, splits_at, user_ratios_reported, user_records_reported};
use crate::decimal::{abs_int, fp_div, fp_gt, fp_le, fp_mul_int, fp_one, Decimal, Fp};
use crate::error::{ErrorModel, StdError};
use crate::msg::{AdminExecuteMsg, Env, ExecuteMsg, MessageInfo, MsgModel};
use crate::state::{lemma_debt_index, lemma_market_index, lemma_position_index, lemma_positions_frame, ContractModel};
use crate::structs::{Coin, MintPositionRecord, MintPositionRecordWithCollateralRatio};
use crate::wire::{bytes_at, read_end, NO_LIMIT};
use vstd::prelude::*;

verus! {

/// Every accepted message leaves a state that satisfies the invariant
/// (minting needs a position counter that can still advance).
pub proof fn law_accepted_message_keeps_invariant(
    m: ContractModel,
    env: Env,
    info: MessageInfo,
    msg: ExecuteMsg,
    first_price: Option<Decimal>,
    second_price: Option<Decimal>,
    validated_admin: Result<String, StdError>,
)
    requires
        m.wf(),
        m.tracker_mint_id < u64::MAX,
        full_outcome(m, env, info, msg, first_price, second_price, validated_admin) is Ok,
    ensures
        full_outcome(m, env, info, msg, first_price, second_price, validated_admin)->Ok_0.0.wf(),
{
    match msg {
        ExecuteMsg::Mint { target_denom, quantity } => {
            let funds = info.funds@;
            let record = MintPositionRecord {
                collateral_asset: funds[0],
                minted_asset: Coin { denom: target_denom, amount: quantity },
            };
            lemma_open_position_wf(m, info.sender, record);
        },
        ExecuteMsg::Repay { position_id } => {
            let i = m.position_index(position_id);
            let p = m.position(position_id);
            let paid = info.funds@[0];
            if p.record.minted_asset.amount - paid.amount == 0 {
                lemma_remove_position_wf(m, i);
            } else {
                let n = repay_outcome(m, env, info, position_id)->Ok_0.0;
                lemma_update_record_wf(m, n, i);
            }
        },
        ExecuteMsg::Liquidate { position_id } => {
            let i = m.position_index(position_id);
            lemma_close_liquidated_wf(m, i, position_id);
        },
        ExecuteMsg::Admin(a) => {
            let n = admin_outcome(m, env, info, a, validated_admin)->Ok_0.0;
            match a {
                AdminExecuteMsg::UpdateAdmin { .. } => lemma_positions_frame(m, n),
                AdminExecuteMsg::CreateDebtToken { subdenom, expiry } => lemma_set_debt_expiry_wf(
                    m,
                    factory_denom(env.contract_address@, subdenom@),
                    expiry,
                ),
                AdminExecuteMsg::RegisterDebtToken { denom, expiry } => lemma_set_debt_expiry_wf(
                    m,
                    denom@,
                    expiry,
                ),
                AdminExecuteMsg::MintDenom { .. } => {},
                AdminExecuteMsg::RegisterMarket { base_currency, quote_currency, market_id } =>
                    lemma_set_market_wf(m, base_currency@, quote_currency@, market_id@),
                AdminExecuteMsg::RemoveMarket { base_currency, quote_currency } =>
                    lemma_remove_market_wf(m, base_currency@, quote_currency@),
                AdminExecuteMsg::SetTokenMetadata { .. } => {},
            }
        },
    }
}

/// A refused message changes nothing: the operations return their error
/// before writing (stated for the operations on the state by the
/// `execute` contract); and only the administrator gets an administrator's
/// message accepted, anyone else being answered `Unauthorized`.
pub proof fn law_only_admin_administers(
    m: ContractModel,
    env: Env,
    info: MessageInfo,
    msg: AdminExecuteMsg,
    validated_admin: Result<String, StdError>,
)
    ensures
        admin_outcome(m, env, info, msg, validated_admin) is Ok ==> is_admin(m, info.sender@),
        !is_admin(m, info.sender@) ==> admin_outcome(m, env, info, msg, validated_admin) == Err::<
            (ContractModel, Seq<MsgModel>),
            ErrorModel,
        >(ErrorModel::Unauthorized),
{
}

/// Minting is accepted only with a single coin of `inj`, for a registered
/// debt token that has not expired, and with enough collateral: the ratio of
/// the debt's value to the deposit's value is lower than the collateral
/// ratio.
pub proof fn law_mint_needs_enough_collateral(
    m: ContractModel,
    env: Env,
    info: MessageInfo,
    target_denom: String,
    quantity: u128,
    inj_price: Option<Decimal>,
    debt_price: Option<Decimal>,
)
    requires
        mint_outcome(m, env, info, target_denom, quantity, inj_price, debt_price) is Ok,
    ensures
        info.funds@.len() == 1,
        info.funds@[0].denom@ == inj(),
        m.has_debt_token(target_denom@),
        m.debt_expiry(target_denom@) > env.block_time,
        inj_price is Some && debt_price is Some,
        fp_gt(
            m.collateral_ratio@,
            fp_div(
                valuation(debt_price.unwrap(), quantity),
                valuation(inj_price.unwrap(), info.funds@[0].amount),
            ),
        ),
{
    lemma_not_le_is_gt(
        m.collateral_ratio@,
        fp_div(valuation(debt_price.unwrap(), quantity), valuation(inj_price.unwrap(), info.funds@[0].amount)),
    );
}

/// Minting opens a position under the next identifier, which no open
/// position holds, advances the counter, lists the position under the
/// minter, and mints exactly the quantity asked to the minter.
pub proof fn law_mint_opens_fresh_position(
    m: ContractModel,
    env: Env,
    info: MessageInfo,
    target_denom: String,
    quantity: u128,
    inj_price: Option<Decimal>,
    debt_price: Option<Decimal>,
)
    requires
        m.wf(),
        m.tracker_mint_id < u64::MAX,
        mint_outcome(m, env, info, target_denom, quantity, inj_price, debt_price) is Ok,
    ensures
        ({
            let (n, msgs) = mint_outcome(m, env, info, target_denom, quantity, inj_price, debt_price)->Ok_0;
            let id = m.tracker_mint_id;
            &&& !m.has_position(id)
            &&& n.tracker_mint_id == id + 1
            &&& n.has_position(id)
            &&& n.position(id).minter == info.sender
            &&& n.position(id).record.collateral_asset == info.funds@[0]
            &&& n.position(id).record.minted_asset == (Coin { denom: target_denom, amount: quantity })
            &&& n.user_ids(info.sender@).contains(id)
            &&& forall|j: u64| j != id ==> (n.has_position(j) <==> m.has_position(j))
            &&& forall|j: u64| j != id && m.has_position(j) ==> n.position(j) == m.position(j)
            &&& msgs == seq![
                MsgModel::MintTokens {
                    sender: env.contract_address,
                    amount: Coin { denom: target_denom, amount: quantity },
                    mint_to: info.sender,
                },
            ]
        }),
{
    let n = mint_outcome(m, env, info, target_denom, quantity, inj_price, debt_price)->Ok_0.0;
    let id = m.tracker_mint_id;
    let record = MintPositionRecord {
        collateral_asset: info.funds@[0],
        minted_asset: Coin { denom: target_denom, amount: quantity },
    };
    lemma_open_position_wf(m, info.sender, record);
    if m.has_position(id) {
        let i = m.position_index(id);
        assert(m.positions[i].id < m.tracker_mint_id);
    }
    let last = m.positions.len() as int;
    assert(n.positions[last].id == id);
    lemma_position_index(n, last);
    assert forall|j: u64| j != id implies (n.has_position(j) <==> m.has_position(j)) && (m.has_position(j)
        ==> n.position(j) == m.position(j)) by {
        if m.has_position(j) {
            let i = m.position_index(j);
            assert(n.positions[i].id == j);
            lemma_position_index(m, i);
            lemma_position_index(n, i);
        }
        if n.has_position(j) {
            let i = n.position_index(j);
            assert(m.positions[i].id == j);
        }
    }
    assert(!m.has_position(id));
    assert(n.tracker_mint_id == id + 1);
    assert(n.position(id).minter == info.sender);
    assert(n.position(id).record == record);
    assert(n.positions_listed());
    assert(n.has_user(n.positions[last].minter@));
    assert(n.user_ids(info.sender@).contains(id));
}

/// Repaying reduces the debt of the position by exactly the amount paid
/// and burns the paid coin. Repaying all of it closes the position and
/// sends its collateral back to the minter; repaying part of it (partial
/// repayment is allowed) keeps the position with the rest of the debt.
pub proof fn law_repay_reduces_debt(m: ContractModel, env: Env, info: MessageInfo, position_id: u64)
    requires
        m.wf(),
        repay_outcome(m, env, info, position_id) is Ok,
    ensures
        ({
            let (n, msgs) = repay_outcome(m, env, info, position_id)->Ok_0;
            let p = m.position(position_id);
            let paid = info.funds@[0];
            &&& m.has_position(position_id)
            &&& paid.denom@ == p.record.minted_asset.denom@
            &&& paid.amount <= p.record.minted_asset.amount
            &&& msgs[0] == (MsgModel::BurnTokens { sender: env.contract_address, amount: paid })
            &&& paid.amount == p.record.minted_asset.amount ==> {
                &&& !n.has_position(position_id)
                &&& msgs.len() == 2
                &&& msgs[1] == (MsgModel::BankSend {
                    to_address: p.minter,
                    amount: seq![p.record.collateral_asset],
                })
            }
            &&& paid.amount < p.record.minted_asset.amount ==> {
                &&& n.has_position(position_id)
                &&& n.position(position_id).minter == p.minter
                &&& n.position(position_id).record.collateral_asset == p.record.collateral_asset
                &&& n.position(position_id).record.minted_asset.amount == p.record.minted_asset.amount
                    - paid.amount
                &&& msgs.len() == 1
            }
        }),
{
    let n = repay_outcome(m, env, info, position_id)->Ok_0.0;
    let i = m.position_index(position_id);
    let p = m.position(position_id);
    lemma_position_index(m, i);
    if info.funds@[0].amount == p.record.minted_asset.amount {
        lemma_remove_position_wf(m, i);
        if n.has_position(position_id) {
            let j = n.position_index(position_id);
            let j0 = if j < i { j } else { j + 1 };
            assert(m.positions[j0].id == position_id);
            if j0 < i {
                assert(m.positions[j0].id < m.positions[i].id);
            } else {
                assert(m.positions[i].id < m.positions[j0].id);
            }
        }
    } else {
        lemma_update_record_wf(m, n, i);
        lemma_position_index(n, i);
    }
}

/// Minting a position and then repaying its whole debt with the minted coin
/// closes it again: the open positions are those before minting.
pub proof fn law_mint_then_full_repay_restores_positions(
    m: ContractModel,
    env: Env,
    info: MessageInfo,
    target_denom: String,
    quantity: u128,
    inj_price: Option<Decimal>,
    debt_price: Option<Decimal>,
    repay_info: MessageInfo,
)
    requires
        m.wf(),
        m.tracker_mint_id < u64::MAX,
        mint_outcome(m, env, info, target_denom, quantity, inj_price, debt_price) is Ok,
        repay_info.funds@ == seq![Coin { denom: target_denom, amount: quantity }],
    ensures
        ({
            let n = mint_outcome(m, env, info, target_denom, quantity, inj_price, debt_price)->Ok_0.0;
            let r = repay_outcome(n, env, repay_info, m.tracker_mint_id);
            &&& r is Ok
            &&& r->Ok_0.0.positions == m.positions
            &&& r->Ok_0.1[1] == (MsgModel::BankSend {
                to_address: info.sender,
                amount: seq![info.funds@[0]],
            })
        }),
{
    let n = mint_outcome(m, env, info, target_denom, quantity, inj_price, debt_price)->Ok_0.0;
    let id = m.tracker_mint_id;
    let last = m.positions.len() as int;
    let record = MintPositionRecord {
        collateral_asset: info.funds@[0],
        minted_asset: Coin { denom: target_denom, amount: quantity },
    };
    lemma_open_position_wf(m, info.sender, record);
    assert(n.positions[last].id == id);
    lemma_position_index(n, last);
    assert(n.positions.remove(last) =~= m.positions);
}

/// Liquidation is accepted only for a position whose ratio of debt value to
/// collateral value is above the collateral ratio, paid off with exactly
/// the minted coin. It closes the position, burns the coin, and splits the
/// whole collateral between the liquidator and the minter (on the inputs on
/// which its arithmetic does not panic).
pub proof fn law_liquidation_only_when_undercollateralized(
    m: ContractModel,
    env: Env,
    info: MessageInfo,
    position_id: u64,
    collateral_price: Option<Decimal>,
    debt_price: Option<Decimal>,
)
    requires
        m.wf(),
        liquidate_arithmetic_defined(m, info, position_id, collateral_price, debt_price),
        liquidate_outcome(m, env, info, position_id, collateral_price, debt_price) is Ok,
    ensures
        ({
            let (n, msgs) = liquidate_outcome(m, env, info, position_id, collateral_price, debt_price)->Ok_0;
            let p = m.position(position_id);
            let collateral = p.record.collateral_asset;
            &&& m.has_position(position_id)
            &&& info.funds@[0].same_as(p.record.minted_asset)
            &&& collateral_price is Some && debt_price is Some
            &&& fp_gt(
                fp_div(
                    valuation(debt_price.unwrap(), p.record.minted_asset.amount),
                    valuation(collateral_price.unwrap(), collateral.amount),
                ),
                m.collateral_ratio@,
            )
            &&& !n.has_position(position_id)
            &&& msgs.len() == 3
            &&& msgs[0] matches MsgModel::BankSend { to_address, amount } && to_address == info.sender
                && amount.len() == 1 && amount[0].denom == collateral.denom
            &&& msgs[1] matches MsgModel::BankSend { to_address, amount } && to_address == p.minter
                && amount.len() == 1 && amount[0].denom == collateral.denom
            &&& msgs[0]->BankSend_amount[0].amount + msgs[1]->BankSend_amount[0].amount == collateral.amount
            &&& msgs[2] == (MsgModel::BurnTokens { sender: env.contract_address, amount: info.funds@[0] })
        }),
{
    let i = m.position_index(position_id);
    lemma_position_index(m, i);
    let p = m.position(position_id);
    let n = liquidate_outcome(m, env, info, position_id, collateral_price, debt_price)->Ok_0.0;
    let collateral = p.record.collateral_asset;
    let minted = p.record.minted_asset;
    let cv = valuation(collateral_price.unwrap(), collateral.amount);
    let dv = valuation(debt_price.unwrap(), minted.amount);
    assert(!fp_le(fp_div(dv, cv), m.collateral_ratio@));
    lemma_not_le_is_gt(fp_div(dv, cv), m.collateral_ratio@);
    lemma_close_liquidated_wf(m, i, position_id);
    if n.has_position(position_id) {
        let j = n.position_index(position_id);
        let j0 = if j < i { j } else { j + 1 };
        assert(m.positions[j0].id == position_id);
        if j0 < i {
            assert(m.positions[j0].id < m.positions[i].id);
        } else {
            assert(m.positions[i].id < m.positions[j0].id);
        }
    }
}

/// For two fixed-point values whose sign bytes are `0` or `1`, not being at
/// most the other means being above it.
pub proof fn lemma_not_le_is_gt(x: crate::decimal::Fp, y: crate::decimal::Fp)
    ensures
        !fp_le(x, y) ==> fp_gt(x, y),
{
}

/// A market registered by the administrator is then found under its pair
/// with the identifier registered; a removed one is no longer found.
pub proof fn law_market_registration_read_back(
    m: ContractModel,
    base: Seq<char>,
    quote: Seq<char>,
    market_id: Seq<char>,
)
    requires
        m.wf(),
    ensures
        set_market(m, base, quote, market_id).has_market(base, quote),
        set_market(m, base, quote, market_id).market_id(base, quote) == market_id,
        !remove_market(m, base, quote).has_market(base, quote),
{
    let n = set_market(m, base, quote, market_id);
    lemma_set_market_wf(m, base, quote, market_id);
    let i = if m.has_market(base, quote) { m.market_index(base, quote) } else { m.markets.len() as int };
    assert(crate::state::market_key_is(n.markets[i], base, quote));
    lemma_market_index(n, i);
    let r = remove_market(m, base, quote);
    if r.has_market(base, quote) {
        let j = r.market_index(base, quote);
        let k = m.market_index(base, quote);
        lemma_market_index(m, k);
        let j0 = if j < k { j } else { j + 1 };
        assert(crate::state::market_key_is(m.markets[j0], base, quote));
        lemma_market_index(m, j0);
    }
}

/// Registering a market for a pair that has none and then removing it gives
/// back the state from before; removing a pair that has no market changes
/// nothing.
pub proof fn law_register_then_remove_market_restores(
    m: ContractModel,
    base: Seq<char>,
    quote: Seq<char>,
    market_id: Seq<char>,
)
    requires
        m.wf(),
        !m.has_market(base, quote),
    ensures
        remove_market(set_market(m, base, quote, market_id), base, quote) == m,
        remove_market(m, base, quote) == m,
{
    let n = set_market(m, base, quote, market_id);
    lemma_set_market_wf(m, base, quote, market_id);
    let i = m.markets.len() as int;
    assert(crate::state::market_key_is(n.markets[i], base, quote));
    lemma_market_index(n, i);
    assert(n.markets.remove(i) =~= m.markets);
}

/// Every message reaches the handler of its kind: an administrator's message
/// is answered as the administrator's router answers it, any other as the
/// router of the messages anyone may send answers it; so no message is
/// ever answered `Never`.
pub proof fn law_execute_dispatches(
    m: ContractModel,
    env: Env,
    info: MessageInfo,
    msg: ExecuteMsg,
    first_price: Option<Decimal>,
    second_price: Option<Decimal>,
    validated_admin: Result<String, StdError>,
)
    ensures
        msg matches ExecuteMsg::Admin(a) ==> full_outcome(m, env, info, msg, first_price, second_price, validated_admin)
            == admin_outcome(m, env, info, a, validated_admin),
        !(msg is Admin) ==> full_outcome(m, env, info, msg, first_price, second_price, validated_admin)
            == execute_outcome(m, env, info, msg, first_price, second_price),
        !(full_outcome(m, env, info, msg, first_price, second_price, validated_admin) matches Err(
            ErrorModel::Never,
        )),
{
}

/// A debt token registered by the administrator is then known with the
/// expiry registered.
pub proof fn law_debt_token_registration_read_back(m: ContractModel, denom: Seq<char>, expiry: u64)
    requires
        m.wf(),
    ensures
        set_debt_expiry(m, denom, expiry).has_debt_token(denom),
        set_debt_expiry(m, denom, expiry).debt_expiry(denom) == expiry,
{
    let n = set_debt_expiry(m, denom, expiry);
    lemma_set_debt_expiry_wf(m, denom, expiry);
    let i = if m.has_debt_token(denom) { m.debt_index(denom) } else { m.debt_expiration.len() as int };
    assert(n.debt_expiration[i].0 == denom);
    lemma_debt_index(n, i);
}


/// Identifiers are never handed out twice: an accepted message never lowers
/// the position counter, and every position open afterwards either was open
/// before, under the same identifier and minter, or is the new one, under
/// the counter's old value.
pub proof fn law_position_ids_never_reused(
    m: ContractModel,
    env: Env,
    info: MessageInfo,
    msg: ExecuteMsg,
    first_price: Option<Decimal>,
    second_price: Option<Decimal>,
    validated_admin: Result<String, StdError>,
)
    requires
        m.wf(),
        m.tracker_mint_id < u64::MAX,
        full_outcome(m, env, info, msg, first_price, second_price, validated_admin) is Ok,
    ensures
        ({
            let n = full_outcome(m, env, info, msg, first_price, second_price, validated_admin)->Ok_0.0;
            &&& n.tracker_mint_id >= m.tracker_mint_id
            &&& forall|j: int|
                0 <= j < n.positions.len() ==> {
                    ||| (#[trigger] n.positions[j]).id == m.tracker_mint_id
                    ||| (m.has_position(n.positions[j].id) && m.position(n.positions[j].id).minter
                        == n.positions[j].minter)
                }
        }),
{
    let n = full_outcome(m, env, info, msg, first_price, second_price, validated_admin)->Ok_0.0;
    match msg {
        ExecuteMsg::Mint { .. } => {
            assert forall|j: int| 0 <= j < n.positions.len() implies {
                ||| (#[trigger] n.positions[j]).id == m.tracker_mint_id
                ||| (m.has_position(n.positions[j].id) && m.position(n.positions[j].id).minter
                    == n.positions[j].minter)
            } by {
                if j < m.positions.len() {
                    lemma_position_index(m, j);
                }
            }
        },
        ExecuteMsg::Repay { position_id } => {
            let i = m.position_index(position_id);
            assert forall|j: int| 0 <= j < n.positions.len() implies {
                ||| (#[trigger] n.positions[j]).id == m.tracker_mint_id
                ||| (m.has_position(n.positions[j].id) && m.position(n.positions[j].id).minter
                    == n.positions[j].minter)
            } by {
                let j0 = if n.positions.len() < m.positions.len() && j >= i { j + 1 } else { j };
                assert(n.positions[j].id == m.positions[j0].id);
                lemma_position_index(m, j0);
            }
        },
        ExecuteMsg::Liquidate { position_id } => {
            let i = m.position_index(position_id);
            assert forall|j: int| 0 <= j < n.positions.len() implies {
                ||| (#[trigger] n.positions[j]).id == m.tracker_mint_id
                ||| (m.has_position(n.positions[j].id) && m.position(n.positions[j].id).minter
                    == n.positions[j].minter)
            } by {
                let j0 = if j >= i { j + 1 } else { j };
                assert(n.positions[j] == m.positions[j0]);
                lemma_position_index(m, j0);
            }
        },
        ExecuteMsg::Admin(_) => {
            assert forall|j: int| 0 <= j < n.positions.len() implies {
                ||| (#[trigger] n.positions[j]).id == m.tracker_mint_id
                ||| (m.has_position(n.positions[j].id) && m.position(n.positions[j].id).minter
                    == n.positions[j].minter)
            } by {
                lemma_position_index(m, j);
            }
        },
    }
}

/// Writing an account message and reading the bytes into a new message
/// gives the same message back, and reading stops at the end of the bytes:
/// for every message that can be written whose undeclared fields each have
/// a value and a number that the message does not declare.
pub proof fn law_account_encoding_reads_back(m: EthAccountModel)
    requires
        eth_account_readable(m),
    ensures
        merge_eth_account(eth_account_bytes(m), 0, NO_LIMIT as int, empty_eth_account()) == Ok::<
            (EthAccountModel, int),
            crate::wire::WireError,
        >((m, eth_account_bytes(m).len() as int)),
{
    let s = eth_account_bytes(m);
    assert(s.subrange(0, s.len() as int) =~= s);
    assert(bytes_at(s, 0, s));
    assert(read_end(s, NO_LIMIT as int) == s.len());
    lemma_eth_account_reads_back(s, 0, NO_LIMIT as int, m);
}

/// Any under-collateralised position can be liquidated by anyone who pays
/// off its debt with the minted coin: where the debt value over the
/// collateral value is above the collateral ratio (and the arithmetic does
/// not panic), liquidation is accepted. The position closes, the liquidator
/// receives the collateral worth the debt plus the fee, in whole units, the
/// minter the rest, and the paid coin is burnt.
pub proof fn law_undercollateralized_position_is_liquidated(
    m: ContractModel,
    env: Env,
    info: MessageInfo,
    position_id: u64,
    collateral_price: Decimal,
    debt_price: Decimal,
)
    requires
        m.wf(),
        info.funds@.len() == 1,
        m.has_position(position_id),
        info.funds@[0].same_as(m.position(position_id).record.minted_asset),
        m.has_market(m.position(position_id).record.collateral_asset.denom@, usdt()),
        m.has_market(m.position(position_id).record.minted_asset.denom@, usdt()),
        fp_gt(
            fp_div(
                valuation(debt_price, m.position(position_id).record.minted_asset.amount),
                valuation(collateral_price, m.position(position_id).record.collateral_asset.amount),
            ),
            m.collateral_ratio@,
        ),
        liquidate_arithmetic_defined(m, info, position_id, Some(collateral_price), Some(debt_price)),
    ensures
        ({
            let p = m.position(position_id);
            let collateral = p.record.collateral_asset;
            let debt_value = valuation(debt_price, p.record.minted_asset.amount);
            let paid = seized_units(debt_value, collateral_price) + fee_units(m, collateral.amount);
            liquidate_outcome(m, env, info, position_id, Some(collateral_price), Some(debt_price)) == Ok::<
                (ContractModel, Seq<MsgModel>),
                ErrorModel,
            >(
                (
                    close_liquidated(m, m.position_index(position_id), p.minter@, position_id),
                    seq![
                        MsgModel::BankSend {
                            to_address: info.sender,
                            amount: seq![Coin { denom: collateral.denom, amount: paid as u128 }],
                        },
                        MsgModel::BankSend {
                            to_address: p.minter,
                            amount: seq![Coin { denom: collateral.denom, amount: (collateral.amount - paid) as u128 }],
                        },
                        MsgModel::BurnTokens { sender: env.contract_address, amount: info.funds@[0] },
                    ],
                ),
            )
        }),
{
    let p = m.position(position_id);
    let cv = valuation(collateral_price, p.record.collateral_asset.amount);
    let dv = valuation(debt_price, p.record.minted_asset.amount);
    lemma_gt_not_le(fp_div(dv, cv), m.collateral_ratio@);
    let r = liquidate_outcome(m, env, info, position_id, Some(collateral_price), Some(debt_price));
    assert(r is Ok);
    assert(r->Ok_0.1 =~= seq![
        MsgModel::BankSend {
            to_address: info.sender,
            amount: seq![
                Coin {
                    denom: p.record.collateral_asset.denom,
                    amount: (seized_units(dv, collateral_price) + fee_units(m, p.record.collateral_asset.amount)) as u128,
                },
            ],
        },
        MsgModel::BankSend {
            to_address: p.minter,
            amount: seq![
                Coin {
                    denom: p.record.collateral_asset.denom,
                    amount: (p.record.collateral_asset.amount - (seized_units(dv, collateral_price) + fee_units(
                        m,
                        p.record.collateral_asset.amount,
                    ))) as u128,
                },
            ],
        },
        MsgModel::BurnTokens { sender: env.contract_address, amount: info.funds@[0] },
    ]);
}

/// Being above excludes being at most.
pub proof fn lemma_gt_not_le(x: crate::decimal::Fp, y: crate::decimal::Fp)
    ensures
        fp_gt(x, y) ==> !fp_le(x, y),
{
}

/// The whole units of a quotient `x / y` of two fixed-point values are the
/// magnitudes' quotient `⌊|x| / |y|⌋`: the division's scaling by 10^18 and
/// the truncation to units cancel out.
pub proof fn lemma_units_of_quotient(x: Fp, y: Fp)
    requires
        x.num >= 0,
        y.num > 0,
    ensures
        units(fp_div(x, y)) == x.num / y.num,
{
    let one = fp_one();
    if y.num == one && y.sign == 1 {
        assert(units(fp_div(x, y)) == x.num / one);
    } else {
        let q = (one * x.num) / y.num;
        vstd::arithmetic::div_mod::lemma_div_denominator(one * x.num, y.num, one);
        vstd::arithmetic::div_mod::lemma_div_multiples_vanish_quotient(one, x.num, y.num);
        assert(y.num * one == one * y.num) by (nonlinear_arith);
        assert(q / one == x.num / y.num);
        if q == 0 {
            assert(units(fp_div(x, y)) == 0);
        } else {
            assert(units(fp_div(x, y)) == q / one);
        }
    }
}

/// On an accepted liquidation the liquidator receives, besides the fee, the
/// collateral whose value at the collateral price is the debt value, in
/// whole units rounded down: `⌊(debt price × minted amount) / collateral
/// price⌋` units, so that the share shrinks as the collateral's price
/// grows. The fee is `⌊fee pct × collateral amount⌋` units, and the minter
/// receives the rest of the collateral.
pub proof fn law_liquidation_pays_debt_value_in_collateral(
    m: ContractModel,
    env: Env,
    info: MessageInfo,
    position_id: u64,
    collateral_price: Decimal,
    debt_price: Decimal,
)
    requires
        m.wf(),
        liquidate_arithmetic_defined(m, info, position_id, Some(collateral_price), Some(debt_price)),
        liquidate_outcome(m, env, info, position_id, Some(collateral_price), Some(debt_price)) is Ok,
    ensures
        ({
            let msgs = liquidate_outcome(m, env, info, position_id, Some(collateral_price), Some(debt_price))->Ok_0.1;
            let p = m.position(position_id);
            let collateral = p.record.collateral_asset;
            let minted = p.record.minted_asset;
            let debt_value = debt_price@.num * abs_int(as_factor(minted.amount));
            let seized = debt_value / collateral_price@.num;
            let fee = (m.liquidation_fee_pct@.num * abs_int(as_factor(collateral.amount))) / fp_one();
            &&& collateral_price@.num > 0
            &&& msgs[0] matches MsgModel::BankSend { to_address, amount } && to_address == info.sender
                && amount.len() == 1 && amount[0].denom == collateral.denom && amount[0].amount == seized + fee
            &&& msgs[1] matches MsgModel::BankSend { to_address, amount } && to_address == p.minter
                && amount.len() == 1 && amount[0].denom == collateral.denom
                && amount[0].amount == collateral.amount - seized - fee
        }),
{
    let p = m.position(position_id);
    let minted = p.record.minted_asset;
    let dv = fp_mul_int(debt_price@, as_factor(minted.amount));
    assert(debt_price@.num >= 0);
    assert(dv.num >= 0) by (nonlinear_arith)
        requires
            dv.num == debt_price@.num * abs_int(as_factor(minted.amount)),
            debt_price@.num >= 0,
            abs_int(as_factor(minted.amount)) >= 0,
    ;
    lemma_units_of_quotient(dv, collateral_price@);
}

/// A batch query reports exactly the open positions whose identifier is at
/// least `start`, each with its minter and record, in increasing order of
/// identifier, and at most `count` of them: an open position from `start`
/// on is left out only when `count` positions with smaller identifiers
/// were reported.
pub proof fn law_batch_reports_positions_from_start(
    m: ContractModel,
    start: u64,
    count: u64,
    inj_price: Decimal,
    debt_prices: Seq<Decimal>,
    r: Seq<MintPositionRecordWithCollateralRatio>,
)
    requires
        m.wf(),
        batch_reported(m, start, count, inj_price, debt_prices, r),
    ensures
        r.len() <= count as usize,
        forall|k: int|
            0 <= k < r.len() ==> {
                let id = (#[trigger] r[k]).position_id;
                &&& m.has_position(id)
                &&& id >= start
                &&& r[k].minter == m.position(id).minter
                &&& r[k].collateral_asset == m.position(id).record.collateral_asset
                &&& r[k].minted_asset == m.position(id).record.minted_asset
            },
        forall|i: int, j: int| 0 <= i < j < r.len() ==> (#[trigger] r[i]).position_id < (#[trigger] r[j]).position_id,
        forall|i: int|
            0 <= i < m.positions.len() && (#[trigger] m.positions[i]).id >= start ==> (exists|k: int|
                0 <= k < r.len() && (#[trigger] r[k]).position_id == m.positions[i].id) || (r.len()
                == count as usize && forall|k: int| 0 <= k < r.len() ==> (#[trigger] r[k]).position_id < m.positions[i].id),
{
    let s = m.positions;
    lemma_split_exists(s, start, s.len() as int);
    let b = batch_begin(s, start);
    assert(splits_at(s, start, b));
    let n = count as usize as int;
    let e = if b + n < s.len() { b + n } else { s.len() as int };
    assert(batch(m, start, count) =~= s.subrange(b, e));
    assert forall|k: int| 0 <= k < r.len() implies {
        let id = (#[trigger] r[k]).position_id;
        &&& m.has_position(id)
        &&& id >= start
        &&& r[k].minter == m.position(id).minter
        &&& r[k].collateral_asset == m.position(id).record.collateral_asset
        &&& r[k].minted_asset == m.position(id).record.minted_asset
    } by {
        assert(batch(m, start, count)[k] == s[b + k]);
        lemma_position_index(m, b + k);
    }
    assert forall|i: int, j: int| 0 <= i < j < r.len() implies (#[trigger] r[i]).position_id
        < (#[trigger] r[j]).position_id by {
        assert(batch(m, start, count)[i] == s[b + i]);
        assert(batch(m, start, count)[j] == s[b + j]);
    }
    assert forall|i: int|
        0 <= i < m.positions.len() && (#[trigger] m.positions[i]).id >= start implies (exists|k: int|
            0 <= k < r.len() && (#[trigger] r[k]).position_id == m.positions[i].id) || (r.len()
            == count as usize && forall|k: int| 0 <= k < r.len() ==> (#[trigger] r[k]).position_id
            < m.positions[i].id) by {
        assert(i >= b);
        if i < e {
            let k = i - b;
            assert(batch(m, start, count)[k] == s[i]);
            assert(r[k].position_id == m.positions[i].id);
        } else {
            assert forall|k: int| 0 <= k < r.len() implies (#[trigger] r[k]).position_id < m.positions[i].id by {
                assert(batch(m, start, count)[k] == s[b + k]);
            }
        }
    }
}

/// Each position of a batch is valued at the price of its own minted
/// denomination: where the prices handed in are, position by position,
/// those of the batch's minted denominations, the ratio reported for a
/// position is `(price of its minted denomination × its minted amount) /
/// (inj price × its collateral amount)`.
pub proof fn law_batch_ratios_use_own_prices(
    m: ContractModel,
    start: u64,
    count: u64,
    inj_price: Decimal,
    debt_prices: Seq<Decimal>,
    price_of: spec_fn(Seq<char>) -> Decimal,
    r: Seq<MintPositionRecordWithCollateralRatio>,
)
    requires
        m.wf(),
        batch_reported(m, start, count, inj_price, debt_prices, r),
        debt_prices.len() == batch(m, start, count).len(),
        forall|k: int|
            0 <= k < debt_prices.len() ==> #[trigger] debt_prices[k] == price_of(
                batch(m, start, count)[k].record.minted_asset.denom@,
            ),
    ensures
        forall|k: int|
            0 <= k < r.len() ==> (#[trigger] r[k]).collateral_ratio@ == fp_div(
                fp_mul_int(price_of(r[k].minted_asset.denom@)@, as_factor(r[k].minted_asset.amount)),
                fp_mul_int(inj_price@, as_factor(r[k].collateral_asset.amount)),
            ),
{
    assert forall|k: int| 0 <= k < r.len() implies (#[trigger] r[k]).collateral_ratio@ == fp_div(
        fp_mul_int(price_of(r[k].minted_asset.denom@)@, as_factor(r[k].minted_asset.amount)),
        fp_mul_int(inj_price@, as_factor(r[k].collateral_asset.amount)),
    ) by {
        assert(debt_prices[k] == price_of(batch(m, start, count)[k].record.minted_asset.denom@));
    }
}

/// An administrator's `CreateDebtToken` asks the token factory, on the
/// contract's behalf, for the denomination `subdenom` and registers the
/// resulting `factory/{contract}/{subdenom}` with the expiry given;
/// `RegisterDebtToken` registers a denomination created elsewhere, as it
/// is named, with the expiry given and no message. Neither touches the
/// positions, the markets or the administrator.
pub proof fn law_debt_tokens_registered_as_named(
    m: ContractModel,
    env: Env,
    info: MessageInfo,
    subdenom: String,
    denom: String,
    expiry: u64,
    validated_admin: Result<String, StdError>,
)
    requires
        m.wf(),
        is_admin(m, info.sender@),
    ensures
        ({
            let created = "factory/"@ + env.contract_address@ + "/"@ + subdenom@;
            let out = admin_outcome(m, env, info, AdminExecuteMsg::CreateDebtToken { subdenom, expiry }, validated_admin);
            &&& out is Ok
            &&& out->Ok_0.0.has_debt_token(created)
            &&& out->Ok_0.0.debt_expiry(created) == expiry
            &&& out->Ok_0.0.positions == m.positions
            &&& out->Ok_0.0.markets == m.markets
            &&& out->Ok_0.0.admin == m.admin
            &&& out->Ok_0.1 == seq![MsgModel::CreateDenom { sender: env.contract_address, subdenom }]
        }),
        ({
            let out = admin_outcome(m, env, info, AdminExecuteMsg::RegisterDebtToken { denom, expiry }, validated_admin);
            &&& out is Ok
            &&& out->Ok_0.0.has_debt_token(denom@)
            &&& out->Ok_0.0.debt_expiry(denom@) == expiry
            &&& out->Ok_0.0.positions == m.positions
            &&& out->Ok_0.0.markets == m.markets
            &&& out->Ok_0.0.admin == m.admin
            &&& out->Ok_0.1.len() == 0
        }),
{
    let created = "factory/"@ + env.contract_address@ + "/"@ + subdenom@;
    assert(factory_denom(env.contract_address@, subdenom@) == created);
    law_debt_token_registration_read_back(m, created, expiry);
    law_debt_token_registration_read_back(m, denom@, expiry);
}

/// An administrator's `UpdateAdmin` makes the chain-validated address the
/// administrator, and changes nothing else; where the chain refuses the
/// address, its error is the answer. `SetTokenMetadata` leaves the state
/// as it is and sends the metadata as given.
pub proof fn law_admin_update_and_metadata(
    m: ContractModel,
    env: Env,
    info: MessageInfo,
    new_admin: String,
    denom: String,
    denom_name: String,
    symbol: String,
    decimals: u8,
    validated_admin: Result<String, StdError>,
)
    requires
        is_admin(m, info.sender@),
    ensures
        ({
            let out = admin_outcome(m, env, info, AdminExecuteMsg::UpdateAdmin { new_admin }, validated_admin);
            &&& validated_admin matches Ok(a) ==> out == Ok::<(ContractModel, Seq<MsgModel>), ErrorModel>(
                (ContractModel { admin: Some(a), ..m }, Seq::empty()),
            )
            &&& validated_admin matches Err(e) ==> out == Err::<(ContractModel, Seq<MsgModel>), ErrorModel>(
                ErrorModel::Std(e@),
            )
        }),
        admin_outcome(
            m,
            env,
            info,
            AdminExecuteMsg::SetTokenMetadata { denom, denom_name, symbol, decimals },
            validated_admin,
        ) == Ok::<(ContractModel, Seq<MsgModel>), ErrorModel>(
            (m, seq![MsgModel::SetTokenMetadata { denom, name: denom_name, symbol, decimals }]),
        ),
{
}

/// Every position but `id` is open in `n` exactly when it is in `m`, and
/// is the same there.
pub open spec fn others_kept(m: ContractModel, n: ContractModel, id: u64) -> bool {
    forall|j: u64|
        j != id ==> (#[trigger] n.has_position(j) <==> m.has_position(j)) && (m.has_position(j) ==> n.position(j)
            == m.position(j))
}

/// Taking out the position at index `i`, or changing it under the same
/// identifier, leaves every other position as it was.
proof fn lemma_other_positions_kept(m: ContractModel, n: ContractModel, i: int, removed: bool)
    requires
        m.positions_ordered(),
        n.positions_ordered(),
        0 <= i < m.positions.len(),
        removed ==> n.positions == m.positions.remove(i),
        !removed ==> n.positions.len() == m.positions.len() && n.positions[i].id == m.positions[i].id
            && forall|j: int| 0 <= j < m.positions.len() && j != i ==> n.positions[j] == m.positions[j],
    ensures
        others_kept(m, n, m.positions[i].id),
{
    let id = m.positions[i].id;
    assert forall|j: u64| j != id implies (#[trigger] n.has_position(j) <==> m.has_position(j)) && (m.has_position(j)
        ==> n.position(j) == m.position(j)) by {
        if m.has_position(j) {
            let k = m.position_index(j);
            lemma_position_index(m, k);
            assert(k != i);
            let k2 = if removed && k > i { k - 1 } else { k };
            assert(n.positions[k2] == m.positions[k]);
            lemma_position_index(n, k2);
            assert(n.has_position(j));
        }
        if n.has_position(j) {
            let k2 = n.position_index(j);
            assert(n.positions[k2].id == j);
            let k = if removed && k2 >= i { k2 + 1 } else { k2 };
            if !removed {
                assert(k2 != i);
            }
            assert(n.positions[k2] == m.positions[k]);
            assert(m.positions[k].id == j);
            assert(m.has_position(j));
        }
    }
}

/// Repaying is accepted whenever a single coin of the position's minted
/// denomination is sent, for no more than its debt, whoever sends it; and
/// it touches no other position, nor the counter, the users' lists, the
/// debt tokens, the markets or the settings.
pub proof fn law_repay_accepted_and_local(m: ContractModel, env: Env, info: MessageInfo, position_id: u64)
    requires
        m.wf(),
        info.funds@.len() == 1,
        m.has_position(position_id),
        info.funds@[0].denom@ == m.position(position_id).record.minted_asset.denom@,
        info.funds@[0].amount <= m.position(position_id).record.minted_asset.amount,
    ensures
        ({
            let out = repay_outcome(m, env, info, position_id);
            let n = out->Ok_0.0;
            &&& out is Ok
            &&& forall|j: u64|
                j != position_id ==> (#[trigger] n.has_position(j) <==> m.has_position(j)) && (m.has_position(j)
                    ==> n.position(j) == m.position(j))
            &&& n.tracker_mint_id == m.tracker_mint_id
            &&& n.user_positions == m.user_positions
            &&& n.debt_expiration == m.debt_expiration
            &&& n.markets == m.markets
            &&& n.admin == m.admin
            &&& n.collateral_ratio == m.collateral_ratio
            &&& n.liquidation_fee_pct == m.liquidation_fee_pct
        }),
{
    let i = m.position_index(position_id);
    lemma_position_index(m, i);
    let n = repay_outcome(m, env, info, position_id)->Ok_0.0;
    if info.funds@[0].amount == m.position(position_id).record.minted_asset.amount {
        lemma_remove_position_wf(m, i);
        lemma_other_positions_kept(m, n, i, true);
    } else {
        lemma_update_record_wf(m, n, i);
        lemma_other_positions_kept(m, n, i, false);
    }
}

/// Liquidating a position touches no other position, nor the counter,
/// the debt tokens, the markets or the settings.
pub proof fn law_liquidation_is_local(
    m: ContractModel,
    env: Env,
    info: MessageInfo,
    position_id: u64,
    collateral_price: Option<Decimal>,
    debt_price: Option<Decimal>,
)
    requires
        m.wf(),
        liquidate_outcome(m, env, info, position_id, collateral_price, debt_price) is Ok,
    ensures
        ({
            let n = liquidate_outcome(m, env, info, position_id, collateral_price, debt_price)->Ok_0.0;
            &&& forall|j: u64|
                j != position_id ==> (#[trigger] n.has_position(j) <==> m.has_position(j)) && (m.has_position(j)
                    ==> n.position(j) == m.position(j))
            &&& n.tracker_mint_id == m.tracker_mint_id
            &&& n.debt_expiration == m.debt_expiration
            &&& n.markets == m.markets
            &&& n.admin == m.admin
            &&& n.collateral_ratio == m.collateral_ratio
            &&& n.liquidation_fee_pct == m.liquidation_fee_pct
        }),
{
    let i = m.position_index(position_id);
    lemma_position_index(m, i);
    let n = liquidate_outcome(m, env, info, position_id, collateral_price, debt_price)->Ok_0.0;
    lemma_close_liquidated_wf(m, i, position_id);
    assert(m.positions[i].minter@ == m.position(position_id).minter@);
    lemma_other_positions_kept(m, n, i, true);
}

/// A user's queries leave out none of the user's open positions: each open
/// position that the user minted is reported, with its record, by the
/// query of the user's positions and, under its identifier, by the query
/// of the user's positions with their ratios.
pub proof fn law_user_queries_cover_own_positions(
    m: ContractModel,
    user: String,
    inj_price: Decimal,
    debt_prices: Seq<Decimal>,
    records: Seq<MintPositionRecord>,
    with_ratios: Seq<MintPositionRecordWithCollateralRatio>,
)
    requires
        m.wf(),
        user_records_reported(m, user@, records),
        user_ratios_reported(m, user, inj_price, debt_prices, with_ratios),
    ensures
        forall|i: int|
            0 <= i < m.positions.len() && (#[trigger] m.positions[i]).minter@ == user@ ==> {
                &&& exists|k: int| 0 <= k < records.len() && records[k] == m.positions[i].record
                &&& exists|k: int|
                    0 <= k < with_ratios.len() && with_ratios[k].position_id == m.positions[i].id
                        && with_ratios[k].minted_asset == m.positions[i].record.minted_asset
                        && with_ratios[k].collateral_asset == m.positions[i].record.collateral_asset
            },
{
    assert forall|i: int| 0 <= i < m.positions.len() && (#[trigger] m.positions[i]).minter@ == user@ implies {
        &&& exists|k: int| 0 <= k < records.len() && records[k] == m.positions[i].record
        &&& exists|k: int|
            0 <= k < with_ratios.len() && with_ratios[k].position_id == m.positions[i].id
                && with_ratios[k].minted_asset == m.positions[i].record.minted_asset
                && with_ratios[k].collateral_asset == m.positions[i].record.collateral_asset
    } by {
        let id = m.positions[i].id;
        assert(m.has_user(m.positions[i].minter@));
        assert(m.user_ids(user@).contains(id));
        let k = choose|k: int| 0 <= k < m.user_ids(user@).len() && m.user_ids(user@)[k] == id;
        lemma_position_index(m, i);
        assert(records[k] == m.position(id).record);
        assert(with_ratios[k].position_id == id);
    }
}

/// A position is reported by its identifier exactly when it is open, with
/// its minter and record, and valued at the price of its own minted
/// denomination: the ratio is `(that price × its minted amount) / (inj
/// price × its collateral amount)`.
pub proof fn law_position_report_uses_own_price(
    m: ContractModel,
    id: u64,
    inj_price: Decimal,
    debt_prices: Seq<Decimal>,
    price_of: spec_fn(Seq<char>) -> Decimal,
    r: Option<MintPositionRecordWithCollateralRatio>,
)
    requires
        m.wf(),
        position_reported(m, id, inj_price, debt_prices, r),
        m.has_position(id) ==> debt_prices.len() == 1 && debt_prices[0] == price_of(
            m.position(id).record.minted_asset.denom@,
        ),
    ensures
        r is Some <==> m.has_position(id),
        r matches Some(rec) ==> {
            &&& rec.position_id == id
            &&& rec.minter == m.position(id).minter
            &&& rec.minted_asset == m.position(id).record.minted_asset
            &&& rec.collateral_asset == m.position(id).record.collateral_asset
            &&& rec.collateral_ratio@ == fp_div(
                fp_mul_int(price_of(rec.minted_asset.denom@)@, as_factor(rec.minted_asset.amount)),
                fp_mul_int(inj_price@, as_factor(rec.collateral_asset.amount)),
            )
        },
{
}

/// Positions in increasing order of identifier split at `start`: those
/// before some index are below it, the others at least it.
proof fn lemma_split_exists(s: Seq<crate::state::MintPosition>, start: u64, len: int)
    requires
        len == s.len(),
        forall|i: int, j: int| 0 <= i < j < s.len() ==> #[trigger] s[i].id < #[trigger] s[j].id,
    ensures
        exists|b: int| #[trigger] splits_at(s, start, b),
    decreases len,
{
    if s.len() == 0 {
        assert(splits_at(s, start, 0));
    } else {
        let t = s.drop_last();
        lemma_split_exists(t, start, len - 1);
        let b = choose|b: int| #[trigger] splits_at(t, start, b);
        if s.last().id >= start {
            assert forall|j: int| 0 <= j < b implies #[trigger] s[j].id < start by {
                assert(s[j] == t[j]);
            }
            assert forall|j: int| b <= j < s.len() implies #[trigger] s[j].id >= start by {
                if j < s.len() - 1 {
                    assert(s[j] == t[j]);
                }
            }
            assert(splits_at(s, start, b));
        } else {
            assert forall|j: int| 0 <= j < s.len() implies #[trigger] s[j].id < start by {
                if j < s.len() - 1 {
                    assert(s[j].id < s[s.len() - 1].id);
                }
            }
            assert(splits_at(s, start, s.len() as int));
        }
    }
}

/// Each position reported with its ratio for a user is valued at the price
/// of its own minted denomination: where the prices handed in are, position
/// by position, those of the positions' minted denominations, the ratio
/// reported for a position is `(price of its minted denomination × its
/// minted amount) / (inj price × its collateral amount)`.
pub proof fn law_user_ratios_use_own_prices(
    m: ContractModel,
    user: String,
    inj_price: Decimal,
    debt_prices: Seq<Decimal>,
    price_of: spec_fn(Seq<char>) -> Decimal,
    r: Seq<MintPositionRecordWithCollateralRatio>,
)
    requires
        m.wf(),
        user_ratios_reported(m, user, inj_price, debt_prices, r),
        debt_prices.len() == m.user_ids(user@).len(),
        forall|k: int|
            0 <= k < debt_prices.len() ==> #[trigger] debt_prices[k] == price_of(
                m.position(m.user_ids(user@)[k]).record.minted_asset.denom@,
            ),
    ensures
        r.len() == m.user_ids(user@).len(),
        forall|k: int|
            0 <= k < r.len() ==> {
                let rec = #[trigger] r[k];
                &&& rec.position_id == m.user_ids(user@)[k]
                &&& rec.minter == user
                &&& rec.collateral_ratio@ == fp_div(
                    fp_mul_int(price_of(rec.minted_asset.denom@)@, as_factor(rec.minted_asset.amount)),
                    fp_mul_int(inj_price@, as_factor(rec.collateral_asset.amount)),
                )
            },
{
    assert forall|k: int| 0 <= k < r.len() implies {
        let rec = #[trigger] r[k];
        &&& rec.position_id == m.user_ids(user@)[k]
        &&& rec.minter == user
        &&& rec.collateral_ratio@ == fp_div(
            fp_mul_int(price_of(rec.minted_asset.denom@)@, as_factor(rec.minted_asset.amount)),
            fp_mul_int(inj_price@, as_factor(rec.collateral_asset.amount)),
        )
    } by {
        assert(debt_prices[k] == price_of(m.position(m.user_ids(user@)[k]).record.minted_asset.denom@));
    }
}

/// Minting is accepted whenever the funds are a single coin of `inj`, the
/// target is a registered debt token that has not expired, both markets
/// are registered and priced, and the ratio of the debt's value to the
/// deposit's value is below the collateral ratio (whatever the token's
/// denomination looks like): the sender is minted exactly the quantity
/// asked, by the contract.
pub proof fn law_mint_accepted_with_enough_collateral(
    m: ContractModel,
    env: Env,
    info: MessageInfo,
    target_denom: String,
    quantity: u128,
    inj_price: Decimal,
    debt_price: Decimal,
)
    requires
        info.funds@.len() == 1,
        info.funds@[0].denom@ == inj(),
        m.has_debt_token(target_denom@),
        m.debt_expiry(target_denom@) > env.block_time,
        m.has_market(inj(), usdt()),
        m.has_market(target_denom@, usdt()),
        fp_gt(
            m.collateral_ratio@,
            fp_div(valuation(debt_price, quantity), valuation(inj_price, info.funds@[0].amount)),
        ),
    ensures
        ({
            let out = mint_outcome(m, env, info, target_denom, quantity, Some(inj_price), Some(debt_price));
            &&& out is Ok
            &&& out->Ok_0.1 == seq![
                MsgModel::MintTokens {
                    sender: env.contract_address,
                    amount: Coin { denom: target_denom, amount: quantity },
                    mint_to: info.sender,
                },
            ]
        }),
{
    lemma_gt_not_le(
        m.collateral_ratio@,
        fp_div(valuation(debt_price, quantity), valuation(inj_price, info.funds@[0].amount)),
    );
}

/// An administrator's `MintDenom` leaves the state as it is and sends one
/// message: the contract itself, which administers its denominations at
/// the token factory, mints the given coin to the administrator.
pub proof fn law_mint_denom_mints_from_contract(
    m: ContractModel,
    env: Env,
    info: MessageInfo,
    mint_data: Coin,
    validated_admin: Result<String, StdError>,
)
    requires
        is_admin(m, info.sender@),
    ensures
        admin_outcome(m, env, info, AdminExecuteMsg::MintDenom { mint_data }, validated_admin) == Ok::<
            (ContractModel, Seq<MsgModel>),
            ErrorModel,
        >((m, seq![MsgModel::MintTokens { sender: env.contract_address, amount: mint_data, mint_to: info.sender }])),
{
}

} // verus!
