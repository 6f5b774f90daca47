//! Errors the protocol answers a refused request with.
use crate::decimal::Decimal;
use vstd::prelude::*;

verus! {

/// The standard errors that the contract passes through from storage and
/// address validation.
#[derive(Debug)]
pub enum StdError {
    /// A stored item was looked up and is not there; `kind` names its type.
    NotFound { kind: String },
    /// Any other error, with its message.
    GenericErr { msg: String },
}

/// Everything the contract can refuse a message with.
#[derive(Debug)]
pub enum ContractError {
    Std(StdError),
    Never,
    Unauthorized,
    MessageEncodingFailed,
    InvalidFunds,
    InjRequiredMint,
    UnknownToken,
    UnknownMarket,
    TokenHasNotExpired,
    TokenHasExpired,
    InsufficientCollateral { required_collateral_ratio: Decimal },
    NoValidMidpriceFound,
    InvalidDebtPositionId,
    MismatchDenomRedeem { denom_debt: String },
    InvalidPositionId,
    MismatchFundsMintedAssetsInLiquidation,
    PositionEnoughCapitalNoLiquidation,
}

/// The content of a [`StdError`], with its text as characters.
pub enum StdErrorModel {
    NotFound { kind: Seq<char> },
    GenericErr { msg: Seq<char> },
}

impl View for StdError {
    type V = StdErrorModel;

    open spec fn view(&self) -> StdErrorModel {
        match self {
            StdError::NotFound { kind } => StdErrorModel::NotFound { kind: kind@ },
            StdError::GenericErr { msg } => StdErrorModel::GenericErr { msg: msg@ },
        }
    }
}

/// The content of a [`ContractError`], with its text as characters.
pub enum ErrorModel {
    Std(StdErrorModel),
    Never,
    Unauthorized,
    MessageEncodingFailed,
    InvalidFunds,
    InjRequiredMint,
    UnknownToken,
    UnknownMarket,
    TokenHasNotExpired,
    TokenHasExpired,
    InsufficientCollateral { required_collateral_ratio: Decimal },
    NoValidMidpriceFound,
    InvalidDebtPositionId,
    MismatchDenomRedeem { denom_debt: Seq<char> },
    InvalidPositionId,
    MismatchFundsMintedAssetsInLiquidation,
    PositionEnoughCapitalNoLiquidation,
}

impl View for ContractError {
    type V = ErrorModel;

    open spec fn view(&self) -> ErrorModel {
        match self {
            ContractError::Std(e) => ErrorModel::Std(e@),
            ContractError::Never => ErrorModel::Never,
            ContractError::Unauthorized => ErrorModel::Unauthorized,
            ContractError::MessageEncodingFailed => ErrorModel::MessageEncodingFailed,
            ContractError::InvalidFunds => ErrorModel::InvalidFunds,
            ContractError::InjRequiredMint => ErrorModel::InjRequiredMint,
            ContractError::UnknownToken => ErrorModel::UnknownToken,
            ContractError::UnknownMarket => ErrorModel::UnknownMarket,
            ContractError::TokenHasNotExpired => ErrorModel::TokenHasNotExpired,
            ContractError::TokenHasExpired => ErrorModel::TokenHasExpired,
            ContractError::InsufficientCollateral { required_collateral_ratio } =>
                ErrorModel::InsufficientCollateral {
                required_collateral_ratio: *required_collateral_ratio,
            },
            ContractError::NoValidMidpriceFound => ErrorModel::NoValidMidpriceFound,
            ContractError::InvalidDebtPositionId => ErrorModel::InvalidDebtPositionId,
            ContractError::MismatchDenomRedeem { denom_debt } => ErrorModel::MismatchDenomRedeem {
                denom_debt: denom_debt@,
            },
            ContractError::InvalidPositionId => ErrorModel::InvalidPositionId,
            ContractError::MismatchFundsMintedAssetsInLiquidation =>
                ErrorModel::MismatchFundsMintedAssetsInLiquidation,
            ContractError::PositionEnoughCapitalNoLiquidation =>
                ErrorModel::PositionEnoughCapitalNoLiquidation,
        }
    }
}

/// The error a missing market identifier is reported with: storage found no
/// `String` under the key.
pub open spec fn market_not_found() -> ErrorModel {
    ErrorModel::Std(StdErrorModel::NotFound { kind: "alloc::string::String"@ })
}

/// Builds the error for a missing market identifier.
pub fn market_not_found_error() -> (e: ContractError)
    ensures
        e@ == market_not_found(),
{
    ContractError::Std(StdError::NotFound { kind: "alloc::string::String".to_owned() })
}

} // verus!
