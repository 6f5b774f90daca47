//! Messages the contract accepts, the answers to its queries, and the
//! messages it emits for the chain to carry out.
use crate::decimal::Decimal;
use crate::structs::{
    Coin, DebtTokenRecord, MintPositionRecord, MintPositionRecordWithCollateralRatio,
    RegisteredMarketRecord,
};
use vstd::prelude::*;

verus! {

/// What the chain tells the contract about the current block and itself.
#[derive(Debug)]
pub struct Env {
    /// Block time in nanoseconds.
    pub block_time: u64,
    /// The contract's own address.
    pub contract_address: String,
}

/// Who sent a message, and the coins sent along with it.
#[derive(Debug)]
pub struct MessageInfo {
    pub sender: String,
    pub funds: Vec<Coin>,
}

/// Parameters of a new contract, as decimal strings.
#[derive(Debug)]
pub struct InstantiateMsg {
    pub collateral_ratio: String,
    pub liquidation_fee_pct: String,
}

/// Parameters of a migration (none).
#[derive(Clone, Debug, PartialEq, Eq, Structural)]
pub struct MigrateMsg {}

/// Messages only the administrator may send.
#[derive(Debug)]
pub enum AdminExecuteMsg {
    UpdateAdmin { new_admin: String },
    CreateDebtToken { subdenom: String, expiry: u64 },
    RegisterDebtToken { denom: String, expiry: u64 },
    MintDenom { mint_data: Coin },
    RegisterMarket { base_currency: String, quote_currency: String, market_id: String },
    RemoveMarket { base_currency: String, quote_currency: String },
    SetTokenMetadata { denom: String, denom_name: String, symbol: String, decimals: u8 },
}

/// Messages any account may send.
#[derive(Debug)]
pub enum ExecuteMsg {
    /// Mint a debt token against collateral sent with the message.
    Mint { target_denom: String, quantity: u128 },
    /// Liquidate an under-collateralised position.
    Liquidate { position_id: u64 },
    /// Repay (part of) a debt position.
    Repay { position_id: u64 },
    Admin(AdminExecuteMsg),
}

/// Queries the contract answers.
#[derive(Debug)]
pub enum QueryMsg {
    GetAdmin,
    GetUserMintPositions { user_address: String },
    GetUserMintPositionsWithCollateralRatio { user_address: String },
    GetMintPosition { position_id: u64 },
    GetDebtTokens,
    GetProtocolSettings,
    GetBatchMintPositions { start_id: u64, count: u64 },
    GetRegisteredMarkets,
}

#[derive(Debug)]
pub struct GetDebtTokensResponse {
    pub tokens: Vec<DebtTokenRecord>,
}

#[derive(Debug)]
pub struct GetAdminResponse {
    pub admin: Option<String>,
}

#[derive(Debug)]
pub struct GetProtocolSettingsResponse {
    pub collateral_ratio: Decimal,
    pub liquidation_fee_pct: Decimal,
}

#[derive(Debug)]
pub struct GetUserMintPositionsResponse {
    pub mint_positions: Vec<MintPositionRecord>,
}

#[derive(Debug)]
pub struct GetUserMintPositionsWithCollateralRatioResponse {
    pub mint_positions: Vec<MintPositionRecordWithCollateralRatio>,
}

#[derive(Debug)]
pub struct GetMintPositionResponse {
    pub position: Option<MintPositionRecordWithCollateralRatio>,
}

#[derive(Debug)]
pub struct GetBatchMintPositionsResponse {
    pub positions: Vec<MintPositionRecordWithCollateralRatio>,
}

#[derive(Debug)]
pub struct GetRegisteredMarketsResponse {
    pub markets: Vec<RegisteredMarketRecord>,
}

/// The answer to any query.
#[derive(Debug)]
pub enum QueryResponse {
    Admin(GetAdminResponse),
    UserMintPositions(GetUserMintPositionsResponse),
    UserMintPositionsWithCollateralRatio(GetUserMintPositionsWithCollateralRatioResponse),
    MintPosition(GetMintPositionResponse),
    DebtTokens(GetDebtTokensResponse),
    ProtocolSettings(GetProtocolSettingsResponse),
    BatchMintPositions(GetBatchMintPositionsResponse),
    RegisteredMarkets(GetRegisteredMarketsResponse),
}

/// A message the contract asks the chain to carry out.
#[derive(Debug)]
#[allow(inconsistent_fields)]
pub enum ContractMsg {
    /// Send coins from the contract to an address.
    BankSend { to_address: String, amount: Vec<Coin> },
    /// Token factory: create the denomination `factory/{sender}/{subdenom}`.
    CreateDenom { sender: String, subdenom: String },
    /// Token factory: mint `amount` to `mint_to`.
    MintTokens { sender: String, amount: Coin, mint_to: String },
    /// Token factory: burn `amount` held by `sender`.
    BurnTokens { sender: String, amount: Coin },
    /// Token factory: set a denomination's metadata.
    SetTokenMetadata { denom: String, name: String, symbol: String, decimals: u8 },
}

/// The content of a [`ContractMsg`], with the coins of a transfer as a sequence.
#[allow(inconsistent_fields)]
pub enum MsgModel {
    BankSend { to_address: String, amount: Seq<Coin> },
    CreateDenom { sender: String, subdenom: String },
    MintTokens { sender: String, amount: Coin, mint_to: String },
    BurnTokens { sender: String, amount: Coin },
    SetTokenMetadata { denom: String, name: String, symbol: String, decimals: u8 },
}

impl View for ContractMsg {
    type V = MsgModel;

    open spec fn view(&self) -> MsgModel {
        match self {
            ContractMsg::BankSend { to_address, amount } => MsgModel::BankSend {
                to_address: *to_address,
                amount: amount@,
            },
            ContractMsg::CreateDenom { sender, subdenom } => MsgModel::CreateDenom {
                sender: *sender,
                subdenom: *subdenom,
            },
            ContractMsg::MintTokens { sender, amount, mint_to } => MsgModel::MintTokens {
                sender: *sender,
                amount: *amount,
                mint_to: *mint_to,
            },
            ContractMsg::BurnTokens { sender, amount } => MsgModel::BurnTokens {
                sender: *sender,
                amount: *amount,
            },
            ContractMsg::SetTokenMetadata { denom, name, symbol, decimals } =>
                MsgModel::SetTokenMetadata {
                denom: *denom,
                name: *name,
                symbol: *symbol,
                decimals: *decimals,
            },
        }
    }
}

/// What an accepted message yields: the messages to carry out, in order.
#[derive(Debug)]
pub struct Response {
    pub messages: Vec<ContractMsg>,
}

impl View for Response {
    type V = Seq<MsgModel>;

    open spec fn view(&self) -> Seq<MsgModel> {
        self.messages@.map_values(|m: ContractMsg| m@)
    }
}

impl Response {
    /// A response with no messages.
    pub fn new() -> (r: Response)
        ensures
            r@ == Seq::<MsgModel>::empty(),
    {
        Response { messages: Vec::new() }
    }
}

} // verus!
