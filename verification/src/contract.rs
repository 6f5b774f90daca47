//! The contract's entry points: creating it, migrating it, and dispatching
//! messages.
use crate::contract_admin_execute::admin_outcome;
use crate::contract_execute::{
    liquidate_arithmetic_defined, liquidate_outcome, mint_arithmetic_defined, mint_outcome,
    repay_outcome,
};
use crate::decimal::{from_str_overflows, fp_from_str, fp_parse, str_overflows, Decimal};
use crate::error::{ContractError, ErrorModel, StdError};
use crate::msg::{Env, ExecuteMsg, InstantiateMsg, MessageInfo, MigrateMsg, MsgModel, Response};
use crate::state::{Contract, ContractModel};
use vstd::prelude::*;

verus! {

/// Whether a freshly instantiated contract holds `sender` as administrator,
/// the two parsed decimals, a zero position counter and nothing else.
pub open spec fn is_fresh(m: ContractModel, sender: String, msg: InstantiateMsg) -> bool {
    &&& m.admin == Some(sender)
    &&& fp_parse(msg.collateral_ratio@) == Some((m.collateral_ratio@.num, m.collateral_ratio@.sign))
    &&& fp_parse(msg.liquidation_fee_pct@) == Some(
        (m.liquidation_fee_pct@.num, m.liquidation_fee_pct@.sign),
    )
    &&& m.tracker_mint_id == 0
    &&& m.positions.len() == 0
    &&& m.user_positions.len() == 0
    &&& m.debt_expiration.len() == 0
    &&& m.markets.len() == 0
}

/// What a message does, for the messages anyone may send; an administrator's
/// message is refused here with `Never` (see `execute`). For minting, the
/// prices are those of the `inj` and the target denomination's `usdt`
/// markets; for liquidating, those of the collateral's and the minted
/// denomination's.
pub open spec fn execute_outcome(
    m: ContractModel,
    env: Env,
    info: MessageInfo,
    msg: ExecuteMsg,
    first_price: Option<Decimal>,
    second_price: Option<Decimal>,
) -> Result<(ContractModel, Seq<MsgModel>), ErrorModel> {
    match msg {
        ExecuteMsg::Mint { target_denom, quantity } => mint_outcome(
            m,
            env,
            info,
            target_denom,
            quantity,
            first_price,
            second_price,
        ),
        ExecuteMsg::Liquidate { position_id } => liquidate_outcome(
            m,
            env,
            info,
            position_id,
            first_price,
            second_price,
        ),
        ExecuteMsg::Repay { position_id } => repay_outcome(m, env, info, position_id),
        ExecuteMsg::Admin(_) => Err(ErrorModel::Never),
    }
}

/// Where a message reaches arithmetic, the arithmetic does not panic.
pub open spec fn execute_arithmetic_defined(
    m: ContractModel,
    env: Env,
    info: MessageInfo,
    msg: ExecuteMsg,
    first_price: Option<Decimal>,
    second_price: Option<Decimal>,
) -> bool {
    match msg {
        ExecuteMsg::Mint { target_denom, quantity } => mint_arithmetic_defined(
            m,
            env,
            info,
            target_denom,
            quantity,
            first_price,
            second_price,
        ),
        ExecuteMsg::Liquidate { position_id } => liquidate_arithmetic_defined(
            m,
            info,
            position_id,
            first_price,
            second_price,
        ),
        _ => true,
    }
}

/// What any message does: an administrator's message goes to
/// `admin_outcome`, the others to `execute_outcome`.
pub open spec fn full_outcome(
    m: ContractModel,
    env: Env,
    info: MessageInfo,
    msg: ExecuteMsg,
    first_price: Option<Decimal>,
    second_price: Option<Decimal>,
    validated_admin: Result<String, StdError>,
) -> Result<(ContractModel, Seq<MsgModel>), ErrorModel> {
    match msg {
        ExecuteMsg::Admin(a) => admin_outcome(m, env, info, a, validated_admin),
        _ => execute_outcome(m, env, info, msg, first_price, second_price),
    }
}

impl Contract {
    /// Creates the contract: the sender becomes administrator, and the
    /// collateral ratio and liquidation fee are parsed from their strings.
    pub fn instantiate(info: &MessageInfo, msg: &InstantiateMsg) -> (r: (Contract, Response))
        requires
            !from_str_overflows(msg.liquidation_fee_pct@),
            !from_str_overflows(msg.collateral_ratio@),
            fp_parse(msg.liquidation_fee_pct@) is Some,
            fp_parse(msg.collateral_ratio@) is Some,
        ensures
            r.0@.wf(),
            is_fresh(r.0@, info.sender, *msg),
            r.1@ == Seq::<MsgModel>::empty(),
    {
        let liquidation_fee_pct = match fp_from_str(msg.liquidation_fee_pct.as_str()) {
            Some(d) => d,
            None => {
                proof {
                    assert(false);
                }
                Decimal::from_raw_u64(0)
            },
        };
        let collateral_ratio = match fp_from_str(msg.collateral_ratio.as_str()) {
            Some(d) => d,
            None => {
                proof {
                    assert(false);
                }
                Decimal::from_raw_u64(0)
            },
        };
        let c = Contract {
            admin: Some(info.sender.clone()),
            collateral_ratio,
            liquidation_fee_pct,
            tracker_mint_id: 0,
            mint_positions: Vec::new(),
            user_mint_positions: Vec::new(),
            debt_expiration: Vec::new(),
            market_ids: Vec::new(),
        };
        assert(c@.user_positions.len() == 0);
        (c, Response::new())
    }

    /// Creates the contract if both decimal strings parse; `None` where
    /// either does not, or parsing it would overflow (creation panics there).
    pub fn try_instantiate(info: &MessageInfo, msg: &InstantiateMsg) -> (r: Option<(Contract, Response)>)
        ensures
            r is Some <==> (!from_str_overflows(msg.liquidation_fee_pct@) && !from_str_overflows(msg.collateral_ratio@)
                && fp_parse(msg.liquidation_fee_pct@) is Some && fp_parse(msg.collateral_ratio@) is Some),
            r matches Some(p) ==> p.0@.wf() && is_fresh(p.0@, info.sender, *msg) && p.1@ == Seq::<MsgModel>::empty(),
    {
        if str_overflows(msg.liquidation_fee_pct.as_str()) || str_overflows(msg.collateral_ratio.as_str()) {
            return None;
        }
        if fp_from_str(msg.liquidation_fee_pct.as_str()).is_none() {
            return None;
        }
        if fp_from_str(msg.collateral_ratio.as_str()).is_none() {
            return None;
        }
        Some(Contract::instantiate(info, msg))
    }

    /// Migration changes nothing.
    pub fn migrate(&self, msg: MigrateMsg) -> (r: Result<Response, ContractError>)
        ensures
            r matches Ok(resp) && resp@ == Seq::<MsgModel>::empty(),
    {
        Ok(Response::new())
    }

    /// Dispatches a message anyone may send.
    pub fn route_execute(
        &mut self,
        env: &Env,
        info: MessageInfo,
        msg: ExecuteMsg,
        first_price: Option<Decimal>,
        second_price: Option<Decimal>,
    ) -> (r: Result<Response, ContractError>)
        requires
            old(self)@.wf(),
            execute_arithmetic_defined(old(self)@, *env, info, msg, first_price, second_price),
        ensures
            final(self)@.wf(),
            match r {
                Ok(resp) => execute_outcome(old(self)@, *env, info, msg, first_price, second_price)
                    == Ok::<(ContractModel, Seq<MsgModel>), ErrorModel>((final(self)@, resp@)),
                Err(e) => execute_outcome(old(self)@, *env, info, msg, first_price, second_price)
                    == Err::<(ContractModel, Seq<MsgModel>), ErrorModel>(e@) && final(self)@ == old(
                    self,
                )@,
            },
    {
        match msg {
            ExecuteMsg::Mint { target_denom, quantity } => self.execute_mint(
                env,
                info,
                target_denom,
                quantity,
                first_price,
                second_price,
            ),
            ExecuteMsg::Liquidate { position_id } => self.execute_liquidate(
                env,
                info,
                position_id,
                first_price,
                second_price,
            ),
            ExecuteMsg::Repay { position_id } => self.execute_repay(env, info, position_id),
            ExecuteMsg::Admin(_) => Err(ContractError::Never),
        }
    }

    /// Dispatches any message: an administrator's message to
    /// `route_admin_execute`, the others to `route_execute`.
    /// `validated_admin` is the chain's validation of the address in an
    /// `UpdateAdmin` message (not consulted for other messages).
    pub fn execute(
        &mut self,
        env: &Env,
        info: MessageInfo,
        msg: ExecuteMsg,
        first_price: Option<Decimal>,
        second_price: Option<Decimal>,
        validated_admin: Result<String, StdError>,
    ) -> (r: Result<Response, ContractError>)
        requires
            old(self)@.wf(),
            execute_arithmetic_defined(old(self)@, *env, info, msg, first_price, second_price),
        ensures
            final(self)@.wf(),
            match r {
                Ok(resp) => full_outcome(
                    old(self)@,
                    *env,
                    info,
                    msg,
                    first_price,
                    second_price,
                    validated_admin,
                ) == Ok::<(ContractModel, Seq<MsgModel>), ErrorModel>((final(self)@, resp@)),
                Err(e) => full_outcome(
                    old(self)@,
                    *env,
                    info,
                    msg,
                    first_price,
                    second_price,
                    validated_admin,
                ) == Err::<(ContractModel, Seq<MsgModel>), ErrorModel>(e@) && final(self)@ == old(
                    self,
                )@,
            },
    {
        match msg {
            ExecuteMsg::Admin(admin_msg) => self.route_admin_execute(env, &info, admin_msg, validated_admin),
            _ => self.route_execute(env, info, msg, first_price, second_price),
        }
    }
}

} // verus!
