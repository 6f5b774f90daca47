//! Records kept by the protocol and handed out by its queries.
use crate::decimal::Decimal;
use vstd::prelude::*;

verus! {

/// An amount of one denomination (`cosmwasm_std::Coin`, with the amount as a
/// plain `u128`).
#[derive(Debug)]
pub struct Coin {
    pub denom: String,
    pub amount: u128,
}

impl Clone for Coin {
    fn clone(&self) -> (r: Self)
        ensures
            r == *self,
    {
        Coin { denom: self.denom.clone(), amount: self.amount }
    }
}

impl Coin {
    /// Two coins are equal when their denominations and amounts are.
    pub open spec fn same_as(self, other: Coin) -> bool {
        self.denom@ == other.denom@ && self.amount == other.amount
    }

    /// Compares two coins field by field, as `Coin`'s derived `==` does.
    pub fn equals(&self, other: &Coin) -> (r: bool)
        ensures
            r == self.same_as(*other),
    {
        self.amount == other.amount && self.denom == other.denom
    }
}

/// Status of a debt token: live while it has not expired.
#[derive(Debug, PartialEq, Eq, Structural)]
pub enum DebtTokenStatus {
    Live,
    Expired,
}

impl Clone for DebtTokenStatus {
    fn clone(&self) -> (r: Self)
        ensures
            r == *self,
    {
        match self {
            DebtTokenStatus::Live => DebtTokenStatus::Live,
            DebtTokenStatus::Expired => DebtTokenStatus::Expired,
        }
    }
}

impl DebtTokenStatus {
    /// A token is live exactly while its expiration time lies strictly after
    /// the current time (both in nanoseconds).
    pub fn from_expiration(expiration_time: u64, curr_time: u64) -> (r: Self)
        ensures
            r == (if expiration_time > curr_time {
                DebtTokenStatus::Live
            } else {
                DebtTokenStatus::Expired
            }),
    {
        if expiration_time > curr_time {
            DebtTokenStatus::Live
        } else {
            DebtTokenStatus::Expired
        }
    }
}

/// Data attached to a debt token (none so far).
#[derive(Clone, Debug, PartialEq, Eq, Structural)]
pub struct DebtTokenData {}

/// A placeholder record.
#[derive(Clone, Debug, PartialEq, Eq, Structural)]
pub struct SampleStruct {}

/// A borrowed amount with its rate and expiry (nanoseconds).
#[derive(Debug)]
pub struct BorrowPositionRecord {
    pub coin: Coin,
    pub rate: u128,
    pub expiry: u64,
}

/// A debt position: the collateral deposited and the debt token minted.
#[derive(Debug)]
pub struct MintPositionRecord {
    pub collateral_asset: Coin,
    pub minted_asset: Coin,
}

impl Clone for MintPositionRecord {
    fn clone(&self) -> (r: Self)
        ensures
            r == *self,
    {
        MintPositionRecord {
            collateral_asset: self.collateral_asset.clone(),
            minted_asset: self.minted_asset.clone(),
        }
    }
}

/// A debt position with its identifier, its minter and its current ratio of
/// debt value to collateral value.
#[derive(Debug)]
pub struct MintPositionRecordWithCollateralRatio {
    pub position_id: u64,
    pub minter: String,
    pub collateral_asset: Coin,
    pub minted_asset: Coin,
    pub collateral_ratio: Decimal,
}

/// A registered debt token with its expiry (nanoseconds) and its market
/// against `usdt`.
#[derive(Debug)]
pub struct DebtTokenRecord {
    pub denom: String,
    pub expiry: u64,
    pub market_record: MarketRecord,
}

/// A market's ticker and identifier.
#[derive(Debug)]
pub struct MarketRecord {
    pub ticker: String,
    pub market_id: String,
}

/// A registered market: its base and quote currencies and its identifier.
#[derive(Debug)]
pub struct RegisteredMarketRecord {
    pub base_currency: String,
    pub quote_currency: String,
    pub market_id: String,
}

/// The basket of the chain's current auction: the coins on offer, the
/// round and its closing time, and the highest bid with its bidder.
#[derive(Debug)]
pub struct QueryCurrentAuctionBasketResponse {
    pub amount: Vec<Coin>,
    pub auction_round: u64,
    pub auction_closing_time: i64,
    pub highest_bidder: String,
    pub highest_bid_amount: String,
}

} // verus!
