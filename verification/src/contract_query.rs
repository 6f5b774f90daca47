//! Read-only queries on the contract's state.
//!
//! Queries that report collateral ratios take the mid prices the chain
//! reported: `inj_price` for the `inj`/`usdt` market, and `debt_prices[k]`
//! for the `usdt` market of the minted denomination of the `k`-th position
//! reported.
use crate::contract_execute::{usdt, valuation};
use crate::decimal::{
    div_defined, fp_div, fp_div_call, fp_div_defined, fp_mul_int_call, fp_mul_int_fits, mul_int_fits,
    Decimal, Fp,
};
use crate::contract_execute::as_factor;
use crate::msg::{
    GetAdminResponse, GetBatchMintPositionsResponse, GetDebtTokensResponse, GetMintPositionResponse,
    GetProtocolSettingsResponse, GetRegisteredMarketsResponse, GetUserMintPositionsResponse,
    GetUserMintPositionsWithCollateralRatioResponse, QueryMsg, QueryResponse,
};
use crate::state::{lemma_market_index, lemma_position_index, lemma_user_index, Contract, ContractModel, MintPosition};
use crate::structs::{
    DebtTokenRecord, MarketRecord, MintPositionRecord, MintPositionRecordWithCollateralRatio,
    RegisteredMarketRecord,
};
use vstd::prelude::*;
use vstd::utf8::encode_utf8;

verus! {

/// The ratio of debt value to collateral value of a position:
/// `debt_price.mul(minted) / inj_price.mul(collateral)`.
pub open spec fn collateral_ratio_of(record: MintPositionRecord, inj_price: Decimal, debt_price: Decimal) -> Fp {
    fp_div(
        valuation(debt_price, record.minted_asset.amount),
        valuation(inj_price, record.collateral_asset.amount),
    )
}

/// Computing that ratio does not panic.
pub open spec fn collateral_ratio_defined(record: MintPositionRecord, inj_price: Decimal, debt_price: Decimal) -> bool {
    &&& fp_mul_int_fits(debt_price@, as_factor(record.minted_asset.amount))
    &&& fp_mul_int_fits(inj_price@, as_factor(record.collateral_asset.amount))
    &&& fp_div_defined(
        valuation(debt_price, record.minted_asset.amount),
        valuation(inj_price, record.collateral_asset.amount),
    )
}

/// Whether a reported position carries the given identifier, minter and
/// record, and the ratio computed from the given prices.
pub open spec fn reports(
    r: MintPositionRecordWithCollateralRatio,
    id: u64,
    minter: String,
    record: MintPositionRecord,
    inj_price: Decimal,
    debt_price: Decimal,
) -> bool {
    &&& r.position_id == id
    &&& r.minter == minter
    &&& r.collateral_asset == record.collateral_asset
    &&& r.minted_asset == record.minted_asset
    &&& r.collateral_ratio@ == collateral_ratio_of(record, inj_price, debt_price)
}

/// Every registered debt token has a `usdt` market (listing them panics
/// otherwise).
pub open spec fn debt_tokens_priced(m: ContractModel) -> bool {
    forall|i: int| 0 <= i < m.debt_expiration.len() ==> m.has_market(#[trigger] m.debt_expiration[i].0, usdt())
}

/// Every identifier listed for `user` names an open position (listing the
/// user's positions panics otherwise).
pub open spec fn user_positions_open(m: ContractModel, user: Seq<char>) -> bool {
    forall|k: int| 0 <= k < m.user_ids(user).len() ==> m.has_position(#[trigger] m.user_ids(user)[k])
}

/// Whether the positions before index `b` have identifiers below `start`
/// and those from `b` on have identifiers at least `start`.
pub open spec fn splits_at(s: Seq<MintPosition>, start: u64, b: int) -> bool {
    &&& 0 <= b <= s.len()
    &&& forall|j: int| 0 <= j < b ==> #[trigger] s[j].id < start
    &&& forall|j: int| b <= j < s.len() ==> #[trigger] s[j].id >= start
}

/// The index where the positions with identifier at least `start` begin.
pub open spec fn batch_begin(s: Seq<MintPosition>, start: u64) -> int {
    choose|b: int| #[trigger] splits_at(s, start, b)
}

/// The positions a batch query reports: those with identifier at least
/// `start`, in increasing order, at most `count` of them.
pub open spec fn batch(m: ContractModel, start: u64, count: u64) -> Seq<MintPosition> {
    let b = batch_begin(m.positions, start);
    let n = count as usize as int;
    let e = if b + n < m.positions.len() { b + n } else { m.positions.len() as int };
    m.positions.subrange(b, e)
}

/// The key under which storage keeps a market: the byte length of the
/// base currency, then the base's bytes, then the quote's. Storage writes
/// the length in two bytes; eight bytes here order every market alike.
pub open spec fn market_storage_key(base: Seq<char>, quote: Seq<char>) -> Seq<u8> {
    be_bytes(encode_utf8(base).len(), 8) + encode_utf8(base) + encode_utf8(quote)
}

/// The `n` big-endian bytes of `v`.
pub open spec fn be_bytes(v: nat, n: nat) -> Seq<u8>
    decreases n,
{
    if n == 0 {
        Seq::empty()
    } else {
        be_bytes(v / 256, (n - 1) as nat).push((v % 256) as u8)
    }
}

/// `r` lists the registered markets, each as registered, in the order
/// `order` of the market list, which walks their storage keys in order.
pub open spec fn markets_listed(m: ContractModel, r: Seq<RegisteredMarketRecord>, order: Seq<int>) -> bool {
    &&& is_order(order, m.markets.len() as int)
    &&& r.len() == order.len()
    &&& forall|i: int|
        0 <= i < r.len() ==> (#[trigger] r[i]).base_currency@ == m.markets[order[i]].0
            && r[i].quote_currency@ == m.markets[order[i]].1 && r[i].market_id@ == m.markets[order[i]].2
    &&& forall|i: int, j: int|
        0 <= i < j < r.len() ==> bytes_le(
            market_storage_key(m.markets[order[i]].0, m.markets[order[i]].1),
            market_storage_key(m.markets[order[j]].0, m.markets[order[j]].1),
        )
}

/// `r` lists every registered market once, in storage order.
pub open spec fn markets_reported(m: ContractModel, r: Seq<RegisteredMarketRecord>) -> bool {
    exists|order: Seq<int>| markets_listed(m, r, order)
}

/// `r` reports the registered debt tokens in the order `order` of the
/// list of debt tokens, which walks their denominations' bytes in storage
/// order: each with its expiry and its `usdt` market, whose ticker is
/// `{denom}/usdt`.
pub open spec fn debt_tokens_listed(m: ContractModel, r: Seq<DebtTokenRecord>, order: Seq<int>) -> bool {
    &&& is_order(order, m.debt_expiration.len() as int)
    &&& r.len() == order.len()
    &&& forall|i: int|
        0 <= i < r.len() ==> {
            let t = #[trigger] r[i];
            let d = m.debt_expiration[order[i]];
            &&& t.denom@ == d.0
            &&& t.expiry == d.1
            &&& t.market_record.market_id@ == m.market_id(d.0, usdt())
            &&& t.market_record.ticker@ == d.0 + "/usdt"@
        }
    &&& forall|i: int, j: int|
        0 <= i < j < r.len() ==> bytes_le(
            encode_utf8(m.debt_expiration[order[i]].0),
            encode_utf8(m.debt_expiration[order[j]].0),
        )
}

/// `r` reports every registered debt token once, in storage order.
pub open spec fn debt_tokens_reported(m: ContractModel, r: Seq<DebtTokenRecord>) -> bool {
    exists|order: Seq<int>| debt_tokens_listed(m, r, order)
}

/// `r` lists the records of the positions listed for `user`, in order.
pub open spec fn user_records_reported(m: ContractModel, user: Seq<char>, r: Seq<MintPositionRecord>) -> bool {
    &&& r.len() == m.user_ids(user).len()
    &&& forall|k: int| 0 <= k < r.len() ==> #[trigger] r[k] == m.position(m.user_ids(user)[k]).record
}

/// `r` lists the positions listed for `user`, in order, with their ratios;
/// the minter reported is `user`.
pub open spec fn user_ratios_reported(
    m: ContractModel,
    user: String,
    inj_price: Decimal,
    debt_prices: Seq<Decimal>,
    r: Seq<MintPositionRecordWithCollateralRatio>,
) -> bool {
    &&& r.len() == m.user_ids(user@).len()
    &&& forall|k: int|
        0 <= k < r.len() ==> reports(
            #[trigger] r[k],
            m.user_ids(user@)[k],
            user,
            m.position(m.user_ids(user@)[k]).record,
            inj_price,
            debt_prices[k],
        )
}

/// `r` lists the batch of positions from `start`, with their ratios.
pub open spec fn batch_reported(
    m: ContractModel,
    start: u64,
    count: u64,
    inj_price: Decimal,
    debt_prices: Seq<Decimal>,
    r: Seq<MintPositionRecordWithCollateralRatio>,
) -> bool {
    &&& r.len() == batch(m, start, count).len()
    &&& forall|k: int|
        0 <= k < r.len() ==> reports(
            #[trigger] r[k],
            batch(m, start, count)[k].id,
            batch(m, start, count)[k].minter,
            batch(m, start, count)[k].record,
            inj_price,
            debt_prices[k],
        )
}

/// `r` reports position `id` with its ratio if it is open, nothing otherwise.
pub open spec fn position_reported(
    m: ContractModel,
    id: u64,
    inj_price: Decimal,
    debt_prices: Seq<Decimal>,
    r: Option<MintPositionRecordWithCollateralRatio>,
) -> bool {
    &&& (r is Some <==> m.has_position(id))
    &&& r matches Some(rec) ==> reports(
        rec,
        id,
        m.position(id).minter,
        m.position(id).record,
        inj_price,
        debt_prices[0],
    )
}

/// The ratio of each position listed for `user` can be computed with the
/// matching price.
pub open spec fn user_ratios_defined(m: ContractModel, user: Seq<char>, inj_price: Decimal, debt_prices: Seq<Decimal>) -> bool {
    forall|k: int|
        0 <= k < debt_prices.len() ==> collateral_ratio_defined(
            m.position(#[trigger] m.user_ids(user)[k]).record,
            inj_price,
            debt_prices[k],
        )
}

/// The ratio of each position of the batch can be computed with the
/// matching price.
pub open spec fn batch_ratios_defined(m: ContractModel, start: u64, count: u64, inj_price: Decimal, debt_prices: Seq<Decimal>) -> bool {
    forall|k: int|
        0 <= k < debt_prices.len() ==> collateral_ratio_defined(
            (#[trigger] batch(m, start, count)[k]).record,
            inj_price,
            debt_prices[k],
        )
}

/// Whether a query can be answered without panicking, given the prices.
pub open spec fn query_defined(m: ContractModel, msg: QueryMsg, inj_price: Decimal, debt_prices: Seq<Decimal>) -> bool {
    match msg {
        QueryMsg::GetUserMintPositions { user_address } => user_positions_open(m, user_address@),
        QueryMsg::GetUserMintPositionsWithCollateralRatio { user_address } => {
            &&& user_positions_open(m, user_address@)
            &&& debt_prices.len() == m.user_ids(user_address@).len()
            &&& user_ratios_defined(m, user_address@, inj_price, debt_prices)
        },
        QueryMsg::GetMintPosition { position_id } => m.has_position(position_id) ==> debt_prices.len()
            == 1 && collateral_ratio_defined(m.position(position_id).record, inj_price, debt_prices[0]),
        QueryMsg::GetDebtTokens => debt_tokens_priced(m),
        QueryMsg::GetBatchMintPositions { start_id, count } => {
            &&& debt_prices.len() == batch(m, start_id, count).len()
            &&& batch_ratios_defined(m, start_id, count, inj_price, debt_prices)
        },
        _ => true,
    }
}

/// Reports `record` of position `id` of `minter` with its collateral ratio.
fn report_position(
    id: u64,
    minter: String,
    record: &MintPositionRecord,
    inj_price: &Decimal,
    debt_price: &Decimal,
) -> (r: MintPositionRecordWithCollateralRatio)
    requires
        collateral_ratio_defined(*record, *inj_price, *debt_price),
    ensures
        reports(r, id, minter, *record, *inj_price, *debt_price),
{
    let debt_value = fp_mul_int_call(debt_price, record.minted_asset.amount as i128);
    let collateral_value = fp_mul_int_call(inj_price, record.collateral_asset.amount as i128);
    let ratio = fp_div_call(&debt_value, &collateral_value);
    MintPositionRecordWithCollateralRatio {
        position_id: id,
        minter,
        collateral_asset: record.collateral_asset.clone(),
        minted_asset: record.minted_asset.clone(),
        collateral_ratio: ratio,
    }
}

impl Contract {
    /// The administrator, if one is stored.
    pub fn get_admin(&self) -> (r: GetAdminResponse)
        ensures
            r.admin == self@.admin,
    {
        let admin = match &self.admin {
            Some(a) => Some(a.clone()),
            None => None,
        };
        GetAdminResponse { admin }
    }

    /// The collateral ratio and the liquidation fee.
    pub fn get_protocol_settings(&self) -> (r: GetProtocolSettingsResponse)
        ensures
            r.collateral_ratio == self@.collateral_ratio,
            r.liquidation_fee_pct == self@.liquidation_fee_pct,
    {
        GetProtocolSettingsResponse {
            liquidation_fee_pct: self.liquidation_fee_pct,
            collateral_ratio: self.collateral_ratio,
        }
    }

    /// All registered markets, in storage order.
    pub fn get_registered_markets(&self) -> (r: GetRegisteredMarketsResponse)
        ensures
            markets_reported(self@, r.markets@),
    {
        let mut keys: Vec<Vec<u8>> = Vec::new();
        let mut i: usize = 0;
        while i < self.market_ids.len()
            invariant
                i <= self.market_ids@.len(),
                keys@.len() == i,
                forall|j: int|
                    0 <= j < i ==> (#[trigger] keys@[j])@ == market_storage_key(self@.markets[j].0, self@.markets[j].1),
            decreases self.market_ids@.len() - i,
        {
            let e = &self.market_ids[i];
            let base = e.base_currency.as_str().as_bytes();
            let mut k: Vec<u8> = Vec::new();
            push_be(&mut k, base.len() as u64, 8);
            push_bytes(&mut k, base);
            push_bytes(&mut k, e.quote_currency.as_str().as_bytes());
            assert(k@ =~= market_storage_key(self@.markets[i as int].0, self@.markets[i as int].1));
            keys.push(k);
            i = i + 1;
        }
        let order = storage_order(&keys);
        let ghost ord = order@.map_values(|x: usize| x as int);
        let mut markets: Vec<RegisteredMarketRecord> = Vec::new();
        let mut q: usize = 0;
        while q < order.len()
            invariant
                q <= order@.len(),
                ord == order@.map_values(|x: usize| x as int),
                is_order(ord, self@.markets.len() as int),
                keys@.len() == self@.markets.len(),
                markets@.len() == q,
                forall|j: int|
                    0 <= j < q ==> (#[trigger] markets@[j]).base_currency@ == self@.markets[ord[j]].0
                        && markets@[j].quote_currency@ == self@.markets[ord[j]].1 && markets@[j].market_id@
                        == self@.markets[ord[j]].2,
            decreases order@.len() - q,
        {
            assert(ord[q as int] == order@[q as int] as int);
            let e = &self.market_ids[order[q]];
            markets.push(
                RegisteredMarketRecord {
                    base_currency: e.base_currency.clone(),
                    quote_currency: e.quote_currency.clone(),
                    market_id: e.market_id.clone(),
                },
            );
            q = q + 1;
        }
        proof {
            assert forall|a: int, b: int| 0 <= a < b < markets@.len() implies bytes_le(
                market_storage_key(self@.markets[ord[a]].0, self@.markets[ord[a]].1),
                market_storage_key(self@.markets[ord[b]].0, self@.markets[ord[b]].1),
            ) by {
                assert(ord[a] == order@[a] as int && ord[b] == order@[b] as int);
                assert(bytes_le(keys@[order@[a] as int]@, keys@[order@[b] as int]@));
            }
            assert(markets_listed(self@, markets@, ord));
        }
        GetRegisteredMarketsResponse { markets }
    }

    /// Whether every registered debt token has a `usdt` market.
    pub fn check_debt_tokens_priced(&self) -> (r: bool)
        requires
            self@.wf(),
        ensures
            r == debt_tokens_priced(self@),
    {
        let usdt_denom = "usdt".to_owned();
        let mut i: usize = 0;
        while i < self.debt_expiration.len()
            invariant
                i <= self.debt_expiration@.len(),
                usdt_denom@ == usdt(),
                forall|j: int| 0 <= j < i ==> self@.has_market(#[trigger] self@.debt_expiration[j].0, usdt()),
            decreases self.debt_expiration@.len() - i,
        {
            assert(self@.debt_expiration[i as int].0 == self.debt_expiration@[i as int].denom@);
            if self.find_market(&self.debt_expiration[i].denom, &usdt_denom).is_none() {
                return false;
            }
            i = i + 1;
        }
        true
    }

    /// All registered debt tokens, in storage order, with their expiry and
    /// their `usdt` market, whose ticker is `{denom}/usdt`.
    pub fn get_debt_tokens(&self) -> (r: GetDebtTokensResponse)
        requires
            self@.wf(),
            debt_tokens_priced(self@),
        ensures
            debt_tokens_reported(self@, r.tokens@),
    {
        let mut keys: Vec<Vec<u8>> = Vec::new();
        let mut i: usize = 0;
        while i < self.debt_expiration.len()
            invariant
                i <= self.debt_expiration@.len(),
                keys@.len() == i,
                forall|j: int| 0 <= j < i ==> (#[trigger] keys@[j])@ == encode_utf8(self@.debt_expiration[j].0),
            decreases self.debt_expiration@.len() - i,
        {
            let mut k: Vec<u8> = Vec::new();
            push_bytes(&mut k, self.debt_expiration[i].denom.as_str().as_bytes());
            keys.push(k);
            i = i + 1;
        }
        let order = storage_order(&keys);
        let ghost ord = order@.map_values(|x: usize| x as int);
        let usdt_denom = "usdt".to_owned();
        let mut tokens: Vec<DebtTokenRecord> = Vec::new();
        let mut q: usize = 0;
        while q < order.len()
            invariant
                q <= order@.len(),
                self@.wf(),
                debt_tokens_priced(self@),
                usdt_denom@ == usdt(),
                ord == order@.map_values(|x: usize| x as int),
                is_order(ord, self@.debt_expiration.len() as int),
                keys@.len() == self@.debt_expiration.len(),
                tokens@.len() == q,
                forall|j: int|
                    0 <= j < q ==> {
                        let t = #[trigger] tokens@[j];
                        let d = self@.debt_expiration[ord[j]];
                        &&& t.denom@ == d.0
                        &&& t.expiry == d.1
                        &&& t.market_record.market_id@ == self@.market_id(d.0, usdt())
                        &&& t.market_record.ticker@ == d.0 + "/usdt"@
                    },
            decreases order@.len() - q,
        {
            assert(ord[q as int] == order@[q as int] as int);
            let i = order[q];
            let denom = self.debt_expiration[i].denom.clone();
            assert(self@.has_market(self@.debt_expiration[i as int].0, usdt()));
            let k = match self.find_market(&denom, &usdt_denom) {
                Some(k) => k,
                None => {
                    proof {
                        assert(false);
                    }
                    0
                },
            };
            proof {
                lemma_market_index(self@, k as int);
            }
            let market_id = self.market_ids[k].market_id.clone();
            let ticker = denom.clone().concat("/usdt");
            tokens.push(
                DebtTokenRecord {
                    denom,
                    expiry: self.debt_expiration[i].expiry,
                    market_record: MarketRecord { market_id, ticker },
                },
            );
            q = q + 1;
        }
        proof {
            assert forall|a: int, b: int| 0 <= a < b < tokens@.len() implies bytes_le(
                encode_utf8(self@.debt_expiration[ord[a]].0),
                encode_utf8(self@.debt_expiration[ord[b]].0),
            ) by {
                assert(ord[a] == order@[a] as int && ord[b] == order@[b] as int);
                assert(bytes_le(keys@[order@[a] as int]@, keys@[order@[b] as int]@));
            }
            assert(debt_tokens_listed(self@, tokens@, ord));
        }
        GetDebtTokensResponse { tokens }
    }

    /// Whether every identifier listed for `user` names an open position.
    pub fn check_user_positions_open(&self, user: &String) -> (r: bool)
        requires
            self@.wf(),
        ensures
            r == user_positions_open(self@, user@),
    {
        match self.find_user(user) {
            None => true,
            Some(ui) => {
                proof {
                    lemma_user_index(self@, ui as int);
                }
                let ids = &self.user_mint_positions[ui].ids;
                let mut k: usize = 0;
                while k < ids.len()
                    invariant
                        k <= ids@.len(),
                        ids@ == self@.user_ids(user@),
                        forall|j: int| 0 <= j < k ==> self@.has_position(#[trigger] ids@[j]),
                    decreases ids@.len() - k,
                {
                    if self.find_position(ids[k]).is_none() {
                        return false;
                    }
                    k = k + 1;
                }
                true
            },
        }
    }

    /// The identifiers listed for `user` (none for a user without a list).
    pub fn user_position_ids(&self, user: &String) -> (r: Vec<u64>)
        requires
            self@.wf(),
        ensures
            r@ == self@.user_ids(user@),
    {
        match self.find_user(user) {
            None => Vec::new(),
            Some(ui) => {
                proof {
                    lemma_user_index(self@, ui as int);
                }
                self.user_mint_positions[ui].ids.clone()
            },
        }
    }

    /// The position with identifier `id`, if it is open.
    pub fn mint_position(&self, id: u64) -> (r: Option<MintPosition>)
        requires
            self@.wf(),
        ensures
            r is Some <==> self@.has_position(id),
            r matches Some(p) ==> p == self@.position(id),
    {
        match self.find_position(id) {
            None => None,
            Some(i) => {
                proof {
                    lemma_position_index(self@, i as int);
                }
                Some(self.mint_positions[i].clone())
            },
        }
    }

    /// The records of the positions listed for `user`, in listed order.
    pub fn get_user_mint_positions(&self, user_address: &String) -> (r: GetUserMintPositionsResponse)
        requires
            self@.wf(),
            user_positions_open(self@, user_address@),
        ensures
            user_records_reported(self@, user_address@, r.mint_positions@),
    {
        let ids = self.user_position_ids(user_address);
        let mut out: Vec<MintPositionRecord> = Vec::new();
        let mut k: usize = 0;
        while k < ids.len()
            invariant
                self@.wf(),
                user_positions_open(self@, user_address@),
                ids@ == self@.user_ids(user_address@),
                k <= ids@.len(),
                out@.len() == k,
                forall|j: int| 0 <= j < k ==> #[trigger] out@[j] == self@.position(ids@[j]).record,
            decreases ids@.len() - k,
        {
            assert(self@.has_position(ids@[k as int]));
            let p = match self.mint_position(ids[k]) {
                Some(p) => p,
                None => {
                    proof {
                        assert(false);
                    }
                    return GetUserMintPositionsResponse { mint_positions: out };
                },
            };
            out.push(p.record);
            k = k + 1;
        }
        GetUserMintPositionsResponse { mint_positions: out }
    }

    /// The positions listed for `user`, in listed order, each with its
    /// collateral ratio; the minter reported is `user_address`.
    pub fn get_user_mint_positions_with_collateral_ratio(
        &self,
        user_address: &String,
        inj_price: &Decimal,
        debt_prices: &Vec<Decimal>,
    ) -> (r: GetUserMintPositionsWithCollateralRatioResponse)
        requires
            self@.wf(),
            query_defined(
                self@,
                QueryMsg::GetUserMintPositionsWithCollateralRatio { user_address: *user_address },
                *inj_price,
                debt_prices@,
            ),
        ensures
            user_ratios_reported(self@, *user_address, *inj_price, debt_prices@, r.mint_positions@),
    {
        let ids = self.user_position_ids(user_address);
        let mut out: Vec<MintPositionRecordWithCollateralRatio> = Vec::new();
        let mut k: usize = 0;
        while k < ids.len()
            invariant
                self@.wf(),
                query_defined(
                    self@,
                    QueryMsg::GetUserMintPositionsWithCollateralRatio { user_address: *user_address },
                    *inj_price,
                    debt_prices@,
                ),
                ids@ == self@.user_ids(user_address@),
                k <= ids@.len(),
                out@.len() == k,
                forall|j: int|
                    0 <= j < k ==> reports(
                        #[trigger] out@[j],
                        ids@[j],
                        *user_address,
                        self@.position(ids@[j]).record,
                        *inj_price,
                        debt_prices@[j],
                    ),
            decreases ids@.len() - k,
        {
            assert(self@.has_position(ids@[k as int]));
            let p = match self.mint_position(ids[k]) {
                Some(p) => p,
                None => {
                    proof {
                        assert(false);
                    }
                    return GetUserMintPositionsWithCollateralRatioResponse { mint_positions: out };
                },
            };
            assert(collateral_ratio_defined(self@.position(ids@[k as int]).record, *inj_price, debt_prices@[k as int]));
            out.push(report_position(ids[k], user_address.clone(), &p.record, inj_price, &debt_prices[k]));
            k = k + 1;
        }
        GetUserMintPositionsWithCollateralRatioResponse { mint_positions: out }
    }

    /// Position `position_id` with its collateral ratio, if it is open.
    /// `debt_prices` holds the one price of its minted denomination's market
    /// (it is not consulted for a closed position).
    pub fn get_mint_position(&self, position_id: u64, inj_price: &Decimal, debt_prices: &Vec<Decimal>) -> (r: GetMintPositionResponse)
        requires
            self@.wf(),
            query_defined(self@, QueryMsg::GetMintPosition { position_id }, *inj_price, debt_prices@),
        ensures
            position_reported(self@, position_id, *inj_price, debt_prices@, r.position),
    {
        match self.mint_position(position_id) {
            None => GetMintPositionResponse { position: None },
            Some(p) => {
                let rec = report_position(position_id, p.minter, &p.record, inj_price, &debt_prices[0]);
                GetMintPositionResponse { position: Some(rec) }
            },
        }
    }

    /// The positions with identifier at least `start_id`, in increasing
    /// order, at most `count` of them.
    pub fn batch_mint_positions(&self, start_id: u64, count: u64) -> (r: Vec<MintPosition>)
        requires
            self@.wf(),
        ensures
            r@ == batch(self@, start_id, count),
    {
        let ghost s = self@.positions;
        let mut b: usize = 0;
        while b < self.mint_positions.len() && self.mint_positions[b].id < start_id
            invariant
                b <= s.len(),
                s == self@.positions,
                forall|j: int| 0 <= j < b ==> #[trigger] s[j].id < start_id,
            decreases s.len() - b,
        {
            b = b + 1;
        }
        proof {
            assert forall|j: int| b <= j < s.len() implies #[trigger] s[j].id >= start_id by {
                if j > b {
                    assert(s[b as int].id < s[j].id);
                }
            }
            assert(splits_at(s, start_id, b as int));
            let c = batch_begin(s, start_id);
            if c < b {
                assert(s[c].id >= start_id);
            } else if c > b {
                assert(s[b as int].id >= start_id);
                assert(s[b as int].id < start_id);
            }
        }
        let n = count as usize;
        let end = if n < self.mint_positions.len() - b { b + n } else { self.mint_positions.len() };
        let mut out: Vec<MintPosition> = Vec::new();
        let mut k: usize = b;
        while k < end
            invariant
                b <= k <= end <= s.len(),
                s == self@.positions,
                out@ == s.subrange(b as int, k as int),
            decreases end - k,
        {
            out.push(self.mint_positions[k].clone());
            k = k + 1;
            assert(out@ =~= s.subrange(b as int, k as int));
        }
        out
    }

    /// The batch of positions from `start_id`, each with its collateral ratio.
    pub fn get_batch_mint_positions(
        &self,
        start_id: u64,
        count: u64,
        inj_price: &Decimal,
        debt_prices: &Vec<Decimal>,
    ) -> (r: GetBatchMintPositionsResponse)
        requires
            self@.wf(),
            query_defined(self@, QueryMsg::GetBatchMintPositions { start_id, count }, *inj_price, debt_prices@),
        ensures
            batch_reported(self@, start_id, count, *inj_price, debt_prices@, r.positions@),
    {
        let positions = self.batch_mint_positions(start_id, count);
        let mut out: Vec<MintPositionRecordWithCollateralRatio> = Vec::new();
        let mut k: usize = 0;
        while k < positions.len()
            invariant
                positions@ == batch(self@, start_id, count),
                query_defined(self@, QueryMsg::GetBatchMintPositions { start_id, count }, *inj_price, debt_prices@),
                k <= positions@.len(),
                out@.len() == k,
                forall|j: int|
                    0 <= j < k ==> reports(
                        #[trigger] out@[j],
                        positions@[j].id,
                        positions@[j].minter,
                        positions@[j].record,
                        *inj_price,
                        debt_prices@[j],
                    ),
            decreases positions@.len() - k,
        {
            let p = &positions[k];
            assert(collateral_ratio_defined(positions@[k as int].record, *inj_price, debt_prices@[k as int]));
            out.push(report_position(p.id, p.minter.clone(), &p.record, inj_price, &debt_prices[k]));
            k = k + 1;
        }
        GetBatchMintPositionsResponse { positions: out }
    }

    /// Answers a query.
    pub fn route_query(&self, msg: QueryMsg, inj_price: &Decimal, debt_prices: &Vec<Decimal>) -> (r: QueryResponse)
        requires
            self@.wf(),
            query_defined(self@, msg, *inj_price, debt_prices@),
        ensures
            match msg {
                QueryMsg::GetAdmin => r matches QueryResponse::Admin(a) && a.admin == self@.admin,
                QueryMsg::GetProtocolSettings => r matches QueryResponse::ProtocolSettings(s)
                    && s.collateral_ratio == self@.collateral_ratio && s.liquidation_fee_pct
                    == self@.liquidation_fee_pct,
                QueryMsg::GetUserMintPositions { user_address } => r matches QueryResponse::UserMintPositions(p)
                    && user_records_reported(self@, user_address@, p.mint_positions@),
                QueryMsg::GetUserMintPositionsWithCollateralRatio { user_address } => r matches QueryResponse::UserMintPositionsWithCollateralRatio(p)
                    && user_ratios_reported(self@, user_address, *inj_price, debt_prices@, p.mint_positions@),
                QueryMsg::GetMintPosition { position_id } => r matches QueryResponse::MintPosition(p)
                    && position_reported(self@, position_id, *inj_price, debt_prices@, p.position),
                QueryMsg::GetDebtTokens => r matches QueryResponse::DebtTokens(t)
                    && debt_tokens_reported(self@, t.tokens@),
                QueryMsg::GetBatchMintPositions { start_id, count } => r matches QueryResponse::BatchMintPositions(b)
                    && batch_reported(self@, start_id, count, *inj_price, debt_prices@, b.positions@),
                QueryMsg::GetRegisteredMarkets => r matches QueryResponse::RegisteredMarkets(mk)
                    && markets_reported(self@, mk.markets@),
            },
    {
        match msg {
            QueryMsg::GetAdmin => QueryResponse::Admin(self.get_admin()),
            QueryMsg::GetUserMintPositions { user_address } => QueryResponse::UserMintPositions(
                self.get_user_mint_positions(&user_address),
            ),
            QueryMsg::GetUserMintPositionsWithCollateralRatio { user_address } =>
                QueryResponse::UserMintPositionsWithCollateralRatio(
                self.get_user_mint_positions_with_collateral_ratio(&user_address, inj_price, debt_prices),
            ),
            QueryMsg::GetMintPosition { position_id } => QueryResponse::MintPosition(
                self.get_mint_position(position_id, inj_price, debt_prices),
            ),
            QueryMsg::GetDebtTokens => QueryResponse::DebtTokens(self.get_debt_tokens()),
            QueryMsg::GetProtocolSettings => QueryResponse::ProtocolSettings(self.get_protocol_settings()),
            QueryMsg::GetBatchMintPositions { start_id, count } => QueryResponse::BatchMintPositions(
                self.get_batch_mint_positions(start_id, count, inj_price, debt_prices),
            ),
            QueryMsg::GetRegisteredMarkets => QueryResponse::RegisteredMarkets(
                self.get_registered_markets(),
            ),
        }
    }
}


/// Whether computing a position's collateral ratio stays clear of the
/// arithmetic panics.
pub fn collateral_ratio_ok(record: &MintPositionRecord, inj_price: &Decimal, debt_price: &Decimal) -> (r: bool)
    ensures
        r == collateral_ratio_defined(*record, *inj_price, *debt_price),
{
    if !mul_int_fits(debt_price, record.minted_asset.amount as i128) {
        return false;
    }
    if !mul_int_fits(inj_price, record.collateral_asset.amount as i128) {
        return false;
    }
    let debt_value = fp_mul_int_call(debt_price, record.minted_asset.amount as i128);
    let collateral_value = fp_mul_int_call(inj_price, record.collateral_asset.amount as i128);
    div_defined(&debt_value, &collateral_value)
}

impl Contract {
    /// Whether a query can be answered with these prices without panicking
    /// (`query_defined`).
    pub fn query_ok(&self, msg: &QueryMsg, inj_price: &Decimal, debt_prices: &Vec<Decimal>) -> (r: bool)
        requires
            self@.wf(),
        ensures
            r == query_defined(self@, *msg, *inj_price, debt_prices@),
    {
        match msg {
            QueryMsg::GetUserMintPositions { user_address } => self.check_user_positions_open(user_address),
            QueryMsg::GetUserMintPositionsWithCollateralRatio { user_address } => {
                if !self.check_user_positions_open(user_address) {
                    return false;
                }
                let ids = self.user_position_ids(user_address);
                if debt_prices.len() != ids.len() {
                    return false;
                }
                let mut k: usize = 0;
                while k < ids.len()
                    invariant
                        self@.wf(),
                        *msg == (QueryMsg::GetUserMintPositionsWithCollateralRatio { user_address: *user_address }),
                        user_positions_open(self@, user_address@),
                        ids@ == self@.user_ids(user_address@),
                        debt_prices@.len() == ids@.len(),
                        k <= ids@.len(),
                        forall|j: int|
                            0 <= j < k ==> collateral_ratio_defined(
                                self@.position(#[trigger] self@.user_ids(user_address@)[j]).record,
                                *inj_price,
                                debt_prices@[j],
                            ),
                    decreases ids@.len() - k,
                {
                    assert(self@.has_position(ids@[k as int]));
                    let p = match self.mint_position(ids[k]) {
                        Some(p) => p,
                        None => {
                            return false;
                        },
                    };
                    if !collateral_ratio_ok(&p.record, inj_price, &debt_prices[k]) {
                        assert(!collateral_ratio_defined(
                            self@.position(self@.user_ids(user_address@)[k as int]).record,
                            *inj_price,
                            debt_prices@[k as int],
                        ));
                        assert(!user_ratios_defined(self@, user_address@, *inj_price, debt_prices@));
                        return false;
                    }
                    k = k + 1;
                }
                true
            },
            QueryMsg::GetMintPosition { position_id } => match self.mint_position(*position_id) {
                None => true,
                Some(p) => debt_prices.len() == 1 && collateral_ratio_ok(&p.record, inj_price, &debt_prices[0]),
            },
            QueryMsg::GetDebtTokens => self.check_debt_tokens_priced(),
            QueryMsg::GetBatchMintPositions { start_id, count } => {
                let positions = self.batch_mint_positions(*start_id, *count);
                if debt_prices.len() != positions.len() {
                    return false;
                }
                let mut k: usize = 0;
                while k < positions.len()
                    invariant
                        positions@ == batch(self@, *start_id, *count),
                        *msg == (QueryMsg::GetBatchMintPositions { start_id: *start_id, count: *count }),
                        debt_prices@.len() == positions@.len(),
                        k <= positions@.len(),
                        forall|j: int|
                            0 <= j < k ==> collateral_ratio_defined(
                                (#[trigger] batch(self@, *start_id, *count)[j]).record,
                                *inj_price,
                                debt_prices@[j],
                            ),
                    decreases positions@.len() - k,
                {
                    if !collateral_ratio_ok(&positions[k].record, inj_price, &debt_prices[k]) {
                        assert(!collateral_ratio_defined(
                            batch(self@, *start_id, *count)[k as int].record,
                            *inj_price,
                            debt_prices@[k as int],
                        ));
                        assert(!batch_ratios_defined(self@, *start_id, *count, *inj_price, debt_prices@));
                        return false;
                    }
                    k = k + 1;
                }
                true
            },
            _ => true,
        }
    }
}

// ---------------------------------------------------------------------------
// Asking for prices: each minted denomination once.
/// The minted denominations of `records`, each once, in the order in which
/// they first come: the `usdt` markets whose mid price a report of the
/// records asks for.
pub open spec fn price_denoms_of(records: Seq<MintPositionRecord>) -> Seq<Seq<char>>
    decreases records.len(),
{
    if records.len() == 0 {
        Seq::empty()
    } else {
        let prev = price_denoms_of(records.drop_last());
        let d = records.last().minted_asset.denom@;
        if prev.contains(d) {
            prev
        } else {
            prev.push(d)
        }
    }
}

/// The first place of `d` in `denoms`.
pub open spec fn denom_index(denoms: Seq<Seq<char>>, d: Seq<char>) -> int {
    choose|j: int| 0 <= j < denoms.len() && denoms[j] == d && forall|i: int| 0 <= i < j ==> denoms[i] != d
}

/// Each denomination occurs once, and each record's denomination occurs.
proof fn lemma_price_denoms(records: Seq<MintPositionRecord>)
    ensures
        forall|i: int, j: int|
            0 <= i < j < price_denoms_of(records).len() ==> price_denoms_of(records)[i] != price_denoms_of(records)[j],
        forall|k: int|
            0 <= k < records.len() ==> price_denoms_of(records).contains(#[trigger] records[k].minted_asset.denom@),
    decreases records.len(),
{
    if records.len() > 0 {
        let init = records.drop_last();
        lemma_price_denoms(init);
        let prev = price_denoms_of(init);
        let x = records.last().minted_asset.denom@;
        assert forall|k: int| 0 <= k < records.len() implies price_denoms_of(records).contains(
            #[trigger] records[k].minted_asset.denom@,
        ) by {
            let y = records[k].minted_asset.denom@;
            if k < init.len() {
                assert(init[k] == records[k]);
                assert(prev.contains(init[k].minted_asset.denom@));
                let w = choose|w: int| 0 <= w < prev.len() && prev[w] == y;
                if !prev.contains(x) {
                    assert(prev.push(x)[w] == y);
                }
            } else {
                assert(y == x);
                if !prev.contains(x) {
                    assert(prev.push(x)[prev.len() as int] == x);
                }
            }
        }
    }
}

/// The minted denominations of `records` whose mid price is asked for, each
/// once, in the order in which they first come.
pub fn price_denoms(records: &Vec<MintPositionRecord>) -> (r: Vec<String>)
    ensures
        r@.len() == price_denoms_of(records@).len(),
        forall|j: int| 0 <= j < r@.len() ==> #[trigger] r@[j]@ == price_denoms_of(records@)[j],
{
    let mut out: Vec<String> = Vec::new();
    let mut k: usize = 0;
    while k < records.len()
        invariant
            k <= records@.len(),
            out@.len() == price_denoms_of(records@.subrange(0, k as int)).len(),
            forall|j: int| 0 <= j < out@.len() ==> #[trigger] out@[j]@ == price_denoms_of(records@.subrange(0, k as int))[j],
        decreases records@.len() - k,
    {
        let ghost prev = price_denoms_of(records@.subrange(0, k as int));
        let d = &records[k].minted_asset.denom;
        assert(records@.subrange(0, k + 1).drop_last() =~= records@.subrange(0, k as int));
        let mut found = false;
        let mut j: usize = 0;
        while j < out.len()
            invariant
                j <= out@.len(),
                out@.len() == prev.len(),
                forall|i: int| 0 <= i < out@.len() ==> #[trigger] out@[i]@ == prev[i],
                found <==> exists|i: int| 0 <= i < j && prev[i] == d@,
            decreases out@.len() - j,
        {
            if out[j] == *d {
                found = true;
            }
            j = j + 1;
        }
        assert(found <==> prev.contains(d@)) by {
            if prev.contains(d@) {
                let w = choose|w: int| 0 <= w < prev.len() && prev[w] == d@;
                assert(0 <= w < j);
            }
        }
        if !found {
            out.push(d.clone());
        }
        k = k + 1;
    }
    assert(records@.subrange(0, records@.len() as int) =~= records@);
    out
}

/// The price of each position of `records`: the price given for its minted
/// denomination, `denom_prices[j]` for `price_denoms_of(records)[j]`.
pub fn prices_per_position(records: &Vec<MintPositionRecord>, denom_prices: &Vec<Decimal>) -> (r: Vec<Decimal>)
    requires
        denom_prices@.len() == price_denoms_of(records@).len(),
    ensures
        r@.len() == records@.len(),
        forall|k: int|
            0 <= k < records@.len() ==> #[trigger] r@[k] == denom_prices@[denom_index(
                price_denoms_of(records@),
                records@[k].minted_asset.denom@,
            )],
{
    let denoms = price_denoms(records);
    let ghost ds = price_denoms_of(records@);
    proof {
        lemma_price_denoms(records@);
    }
    let mut out: Vec<Decimal> = Vec::new();
    let mut k: usize = 0;
    while k < records.len()
        invariant
            k <= records@.len(),
            ds == price_denoms_of(records@),
            denoms@.len() == ds.len(),
            denom_prices@.len() == ds.len(),
            forall|j: int| 0 <= j < denoms@.len() ==> #[trigger] denoms@[j]@ == ds[j],
            forall|i: int, j: int| 0 <= i < j < ds.len() ==> ds[i] != ds[j],
            forall|q: int| 0 <= q < records@.len() ==> ds.contains(#[trigger] records@[q].minted_asset.denom@),
            out@.len() == k,
            forall|q: int|
                0 <= q < k ==> #[trigger] out@[q] == denom_prices@[denom_index(ds, records@[q].minted_asset.denom@)],
        decreases records@.len() - k,
    {
        let d = &records[k].minted_asset.denom;
        assert(ds.contains(records@[k as int].minted_asset.denom@));
        let mut j: usize = 0;
        while j < denoms.len() && denoms[j] != *d
            invariant
                j <= denoms@.len(),
                denoms@.len() == ds.len(),
                forall|i: int| 0 <= i < denoms@.len() ==> #[trigger] denoms@[i]@ == ds[i],
                forall|i: int| 0 <= i < j ==> ds[i] != d@,
                ds.contains(d@),
            decreases denoms@.len() - j,
        {
            j = j + 1;
        }
        proof {
            if j == denoms@.len() {
                let w = choose|w: int| 0 <= w < ds.len() && ds[w] == d@;
                assert(ds[w] != d@);
            }
            let c = denom_index(ds, d@);
            assert(0 <= j < ds.len() && ds[j as int] == d@ && forall|i: int| 0 <= i < j ==> ds[i] != d@);
            assert(0 <= c < ds.len() && ds[c] == d@ && forall|i: int| 0 <= i < c ==> ds[i] != d@);
            assert(c == j);
        }
        out.push(denom_prices[j]);
        k = k + 1;
    }
    out
}

// ---------------------------------------------------------------------------
// Storage order.
/// The order in which storage walks its keys: byte by byte, and a key
/// before the longer keys that it begins.
pub open spec fn bytes_lt(a: Seq<u8>, b: Seq<u8>) -> bool
    decreases a.len(),
{
    if a.len() == 0 {
        b.len() > 0
    } else if b.len() == 0 {
        false
    } else if a[0] != b[0] {
        a[0] < b[0]
    } else {
        bytes_lt(a.drop_first(), b.drop_first())
    }
}

/// `a` comes before `b` in storage order, or is `b`.
pub open spec fn bytes_le(a: Seq<u8>, b: Seq<u8>) -> bool {
    bytes_lt(a, b) || a == b
}

/// Two keys are equal, or one comes before the other.
proof fn lemma_bytes_total(a: Seq<u8>, b: Seq<u8>)
    ensures
        bytes_lt(a, b) || bytes_lt(b, a) || a == b,
    decreases a.len(),
{
    if a.len() > 0 && b.len() > 0 && a[0] == b[0] {
        lemma_bytes_total(a.drop_first(), b.drop_first());
        if a.drop_first() == b.drop_first() {
            assert(a =~= seq![a[0]] + a.drop_first());
            assert(b =~= seq![b[0]] + b.drop_first());
        }
    }
    if a.len() == 0 && b.len() == 0 {
        assert(a =~= b);
    }
}

/// Storage order is transitive.
proof fn lemma_bytes_trans(a: Seq<u8>, b: Seq<u8>, c: Seq<u8>)
    requires
        bytes_lt(a, b),
        bytes_lt(b, c),
    ensures
        bytes_lt(a, c),
    decreases a.len(),
{
    if a.len() > 0 && b.len() > 0 && c.len() > 0 && a[0] == b[0] && b[0] == c[0] {
        lemma_bytes_trans(a.drop_first(), b.drop_first(), c.drop_first());
    }
}

/// `a` before or at `b`, and `b` before or at `c`.
proof fn lemma_bytes_le_trans(a: Seq<u8>, b: Seq<u8>, c: Seq<u8>)
    requires
        bytes_le(a, b),
        bytes_le(b, c),
    ensures
        bytes_le(a, c),
        bytes_lt(a, b) ==> bytes_lt(a, c),
{
    if bytes_lt(a, b) && bytes_lt(b, c) {
        lemma_bytes_trans(a, b, c);
    }
}

/// Whether `a` comes before `b` in storage order.
pub fn bytes_less(a: &[u8], b: &[u8]) -> (r: bool)
    ensures
        r == bytes_lt(a@, b@),
{
    let mut k: usize = 0;
    assert(a@.skip(0) =~= a@);
    assert(b@.skip(0) =~= b@);
    while k < a.len() && k < b.len() && a[k] == b[k]
        invariant
            k <= a@.len(),
            k <= b@.len(),
            bytes_lt(a@, b@) == bytes_lt(a@.skip(k as int), b@.skip(k as int)),
        decreases a@.len() - k,
    {
        assert(a@.skip(k as int).drop_first() =~= a@.skip(k + 1));
        assert(b@.skip(k as int).drop_first() =~= b@.skip(k + 1));
        k = k + 1;
    }
    if k == a.len() {
        k < b.len()
    } else if k == b.len() {
        false
    } else {
        a[k] < b[k]
    }
}

/// `order` lists each of `0..n` once.
pub open spec fn is_order(order: Seq<int>, n: int) -> bool {
    &&& order.len() == n
    &&& forall|i: int| 0 <= i < order.len() ==> 0 <= #[trigger] order[i] < n
    &&& forall|i: int, j: int| 0 <= i < j < order.len() ==> order[i] != order[j]
}

/// The places of `keys`, in the order in which storage walks the keys;
/// equal keys keep their places' order.
fn storage_order(keys: &Vec<Vec<u8>>) -> (r: Vec<usize>)
    ensures
        is_order(r@.map_values(|x: usize| x as int), keys@.len() as int),
        forall|i: int, j: int|
            0 <= i < j < r@.len() ==> bytes_le(keys@[r@[i] as int]@, keys@[r@[j] as int]@),
{
    let mut order: Vec<usize> = Vec::new();
    let mut i: usize = 0;
    while i < keys.len()
        invariant
            i <= keys@.len(),
            order@.len() == i,
            forall|a: int| 0 <= a < order@.len() ==> #[trigger] order@[a] < i,
            forall|a: int, b: int| 0 <= a < b < order@.len() ==> order@[a] != order@[b],
            forall|a: int, b: int|
                0 <= a < b < order@.len() ==> bytes_le(keys@[order@[a] as int]@, keys@[order@[b] as int]@),
        decreases keys@.len() - i,
    {
        let ghost key = keys@[i as int]@;
        let mut p: usize = 0;
        while p < order.len() && !bytes_less(keys[i].as_slice(), keys[order[p]].as_slice())
            invariant
                i < keys@.len(),
                key == keys@[i as int]@,
                p <= order@.len(),
                forall|a: int| 0 <= a < order@.len() ==> #[trigger] order@[a] < i,
                forall|a: int| 0 <= a < p ==> bytes_le(#[trigger] keys@[order@[a] as int]@, key),
            decreases order@.len() - p,
        {
            proof {
                lemma_bytes_total(key, keys@[order@[p as int] as int]@);
            }
            p = p + 1;
        }
        let ghost before = order@;
        order.insert(p, i);
        proof {
            assert forall|a: int, b: int| 0 <= a < b < order@.len() implies bytes_le(
                keys@[order@[a] as int]@,
                keys@[order@[b] as int]@,
            ) by {
                if b < p {
                    assert(order@[a] == before[a] && order@[b] == before[b]);
                } else if b == p {
                    assert(order@[a] == before[a]);
                } else if a > p {
                    assert(order@[a] == before[a - 1] && order@[b] == before[b - 1]);
                } else if a == p {
                    assert(order@[b] == before[b - 1]);
                    assert(bytes_lt(key, keys@[before[p as int] as int]@));
                    if b - 1 > p {
                        lemma_bytes_le_trans(key, keys@[before[p as int] as int]@, keys@[before[b - 1] as int]@);
                    }
                } else {
                    assert(order@[a] == before[a] && order@[b] == before[b - 1]);
                    assert(bytes_le(keys@[before[a] as int]@, key));
                    assert(bytes_lt(key, keys@[before[p as int] as int]@));
                    if b - 1 > p {
                        lemma_bytes_le_trans(key, keys@[before[p as int] as int]@, keys@[before[b - 1] as int]@);
                    }
                    lemma_bytes_le_trans(keys@[before[a] as int]@, key, keys@[before[b - 1] as int]@);
                }
            }
            assert forall|a: int, b: int| 0 <= a < b < order@.len() implies order@[a] != order@[b] by {
                if b < p {
                    assert(order@[a] == before[a] && order@[b] == before[b]);
                } else if b == p {
                    assert(order@[a] == before[a]);
                } else if a > p {
                    assert(order@[a] == before[a - 1] && order@[b] == before[b - 1]);
                } else if a == p {
                    assert(order@[b] == before[b - 1]);
                } else {
                    assert(order@[a] == before[a] && order@[b] == before[b - 1]);
                }
            }
            assert forall|a: int| 0 <= a < order@.len() implies #[trigger] order@[a] < i + 1 by {
                if a < p {
                    assert(order@[a] == before[a]);
                } else if a > p {
                    assert(order@[a] == before[a - 1]);
                }
            }
        }
        i = i + 1;
    }
    let ghost m = order@.map_values(|x: usize| x as int);
    assert forall|a: int| 0 <= a < m.len() implies 0 <= #[trigger] m[a] < keys@.len() as int by {
        assert(m[a] == order@[a] as int);
    }
    assert forall|a: int, b: int| 0 <= a < b < m.len() implies m[a] != m[b] by {
        assert(m[a] == order@[a] as int && m[b] == order@[b] as int);
    }
    order
}

/// Appends the bytes of `b`.
fn push_bytes(out: &mut Vec<u8>, b: &[u8])
    ensures
        final(out)@ == old(out)@ + b@,
{
    let ghost start = out@;
    let mut k: usize = 0;
    while k < b.len()
        invariant
            k <= b@.len(),
            out@ == start + b@.subrange(0, k as int),
        decreases b@.len() - k,
    {
        out.push(b[k]);
        assert(out@ =~= start + b@.subrange(0, k + 1));
        k = k + 1;
    }
    assert(b@.subrange(0, b@.len() as int) =~= b@);
}

/// Appends the `n` big-endian bytes of `v`.
fn push_be(out: &mut Vec<u8>, v: u64, n: usize)
    ensures
        final(out)@ == old(out)@ + be_bytes(v as nat, n as nat),
    decreases n,
{
    if n == 0 {
        assert(old(out)@ + be_bytes(v as nat, 0) =~= old(out)@);
    } else {
        push_be(out, v / 256, n - 1);
        let ghost mid = out@;
        out.push((v % 256) as u8);
        assert(out@ =~= old(out)@ + be_bytes(v as nat, n as nat));
    }
}

} // verus!
