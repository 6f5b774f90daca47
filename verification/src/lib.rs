//! Zero-coupon debt positions collateralised by a native asset: minting,
//! repayment, liquidation and the administration of debt tokens and markets.
pub mod decimal;
pub mod structs;
pub mod error;
pub mod msg;
pub mod state;
pub mod utils;
pub mod contract_execute;
pub mod contract_admin_execute;
pub mod contract_query;
pub mod contract;
pub mod wire;
pub mod account;
pub mod laws;
pub mod mock_module;
