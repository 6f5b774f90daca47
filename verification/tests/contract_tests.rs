use lend_protocol::decimal::Decimal;
use lend_protocol::error::{ContractError, StdError};
use lend_protocol::msg::{
    AdminExecuteMsg, ContractMsg, Env, ExecuteMsg, InstantiateMsg, MessageInfo, MigrateMsg,
    QueryMsg, QueryResponse,
};
use lend_protocol::state::Contract;
use lend_protocol::structs::Coin;

const ONE: u64 = 1_000_000_000_000_000_000;
const DEBT: &str = "factory/contract/bond";
const EXPIRY: u64 = 2_000;

fn env(time: u64) -> Env {
    Env { block_time: time, contract_address: "contract".to_string() }
}

fn coin(amount: u128, denom: &str) -> Coin {
    Coin { denom: denom.to_string(), amount }
}

fn info(sender: &str, funds: Vec<Coin>) -> MessageInfo {
    MessageInfo { sender: sender.to_string(), funds }
}

fn price(units: u64) -> Decimal {
    Decimal::from_raw_u64(units * ONE)
}

fn no_admin() -> Result<String, StdError> {
    Err(StdError::GenericErr { msg: "unused".to_string() })
}

fn admin_exec(c: &mut Contract, msg: AdminExecuteMsg) -> Result<Vec<ContractMsg>, ContractError> {
    c.route_admin_execute(&env(1_000), &info("admin", vec![]), msg, no_admin()).map(|r| r.messages)
}

/// A contract with the two markets and a live debt token registered.
fn setup(ratio: &str, fee: &str) -> Contract {
    let msg = InstantiateMsg { collateral_ratio: ratio.to_string(), liquidation_fee_pct: fee.to_string() };
    let (mut c, resp) = Contract::try_instantiate(&info("admin", vec![]), &msg).unwrap();
    assert!(resp.messages.is_empty());
    for (base, id) in [("inj", "m-inj"), (DEBT, "m-debt")] {
        admin_exec(
            &mut c,
            AdminExecuteMsg::RegisterMarket {
                base_currency: base.to_string(),
                quote_currency: "usdt".to_string(),
                market_id: id.to_string(),
            },
        )
        .unwrap();
    }
    admin_exec(&mut c, AdminExecuteMsg::RegisterDebtToken { denom: DEBT.to_string(), expiry: EXPIRY }).unwrap();
    assert!(c.check_wf());
    c
}

fn mint(c: &mut Contract, sender: &str, funds: Vec<Coin>, qty: u128, inj: Option<Decimal>, debt: Option<Decimal>) -> Result<Vec<ContractMsg>, ContractError> {
    let i = info(sender, funds);
    assert!(c.mint_arithmetic_ok(&env(1_000), &i, &DEBT.to_string(), qty, &inj, &debt));
    c.execute_mint(&env(1_000), i, DEBT.to_string(), qty, inj, debt).map(|r| r.messages)
}

#[test]
fn instantiate_parses_settings() {
    let c = setup("0.7", "0.05");
    assert_eq!(c.admin, Some("admin".to_string()));
    assert_eq!(c.collateral_ratio.limbs, [700_000_000_000_000_000, 0, 0, 0]);
    assert_eq!(c.collateral_ratio.sign, 1);
    assert_eq!(c.liquidation_fee_pct.limbs, [50_000_000_000_000_000, 0, 0, 0]);
    assert_eq!(c.tracker_mint_id, 0);
    let s = c.get_protocol_settings();
    assert_eq!(s.collateral_ratio.limbs[0], 700_000_000_000_000_000);
}

#[test]
fn instantiate_refuses_bad_decimal() {
    let msg = InstantiateMsg { collateral_ratio: "0.7".to_string(), liquidation_fee_pct: "x".to_string() };
    assert!(Contract::try_instantiate(&info("admin", vec![]), &msg).is_none());
    let msg = InstantiateMsg { collateral_ratio: "1.2.3".to_string(), liquidation_fee_pct: "0".to_string() };
    assert!(Contract::try_instantiate(&info("admin", vec![]), &msg).is_none());
}

#[test]
fn mint_opens_position_and_mints() {
    let mut c = setup("0.7", "0.05");
    // deposit 100 inj at 10 usdt = 1000, debt 500 at 1 usdt: ratio 0.5
    let msgs = mint(&mut c, "alice", vec![coin(100, "inj")], 500, Some(price(10)), Some(price(1))).unwrap();
    assert_eq!(msgs.len(), 1);
    match &msgs[0] {
        ContractMsg::MintTokens { sender, amount, mint_to } => {
            assert_eq!(sender, "contract");
            assert_eq!(amount.denom, DEBT);
            assert_eq!(amount.amount, 500);
            assert_eq!(mint_to, "alice");
        }
        other => panic!("unexpected {:?}", other),
    }
    assert_eq!(c.tracker_mint_id, 1);
    assert_eq!(c.mint_positions.len(), 1);
    assert_eq!(c.mint_positions[0].id, 0);
    assert_eq!(c.mint_positions[0].minter, "alice");
    assert_eq!(c.mint_positions[0].record.collateral_asset.amount, 100);
    assert_eq!(c.user_position_ids(&"alice".to_string()), vec![0]);
    // a second position gets the next identifier
    mint(&mut c, "alice", vec![coin(100, "inj")], 100, Some(price(10)), Some(price(1))).unwrap();
    assert_eq!(c.user_position_ids(&"alice".to_string()), vec![0, 1]);
    assert!(c.check_wf());
}

#[test]
fn mint_refusals_change_nothing() {
    let mut c = setup("0.7", "0.05");
    let p = Some(price(10));
    let d = Some(price(1));
    assert!(matches!(mint(&mut c, "a", vec![], 1, p, d), Err(ContractError::InvalidFunds)));
    assert!(matches!(mint(&mut c, "a", vec![coin(1, "inj"), coin(1, "inj")], 1, p, d), Err(ContractError::InvalidFunds)));
    assert!(matches!(mint(&mut c, "a", vec![coin(100, "atom")], 1, p, d), Err(ContractError::InjRequiredMint)));
    assert!(matches!(mint(&mut c, "a", vec![coin(100, "inj")], 1, None, d), Err(ContractError::NoValidMidpriceFound)));
    assert!(matches!(mint(&mut c, "a", vec![coin(100, "inj")], 1, p, None), Err(ContractError::NoValidMidpriceFound)));
    // 800 of debt against 1000 of deposit: 0.8 > 0.7
    match mint(&mut c, "a", vec![coin(100, "inj")], 800, p, d) {
        Err(ContractError::InsufficientCollateral { required_collateral_ratio }) => {
            assert_eq!(required_collateral_ratio.limbs[0], 700_000_000_000_000_000)
        }
        other => panic!("unexpected {:?}", other),
    }
    // exactly the ratio is refused: the ratio must be lower than it
    assert!(matches!(mint(&mut c, "a", vec![coin(100, "inj")], 700, p, d), Err(ContractError::InsufficientCollateral { .. })));
    assert!(mint(&mut c, "a", vec![coin(100, "inj")], 699, p, d).is_ok());
    assert_eq!(c.mint_positions.len(), 1);
}

#[test]
fn mint_needs_known_live_token_and_markets() {
    let mut c = setup("0.7", "0.05");
    let i = info("a", vec![coin(100, "inj")]);
    let r = c.execute_mint(&env(1_000), i, "other".to_string(), 1, Some(price(1)), Some(price(1)));
    assert!(matches!(r, Err(ContractError::UnknownToken)));
    let i = info("a", vec![coin(100, "inj")]);
    let r = c.execute_mint(&env(EXPIRY), i, DEBT.to_string(), 1, Some(price(1)), Some(price(1)));
    assert!(matches!(r, Err(ContractError::TokenHasExpired)));
    admin_exec(&mut c, AdminExecuteMsg::RemoveMarket { base_currency: DEBT.to_string(), quote_currency: "usdt".to_string() }).unwrap();
    let i = info("a", vec![coin(100, "inj")]);
    let r = c.execute_mint(&env(1_000), i, DEBT.to_string(), 1, Some(price(1)), Some(price(1)));
    assert!(matches!(r, Err(ContractError::UnknownMarket)));
    admin_exec(&mut c, AdminExecuteMsg::RemoveMarket { base_currency: "inj".to_string(), quote_currency: "usdt".to_string() }).unwrap();
    let i = info("a", vec![coin(100, "inj")]);
    let r = c.execute_mint(&env(1_000), i, DEBT.to_string(), 1, Some(price(1)), Some(price(1)));
    match r {
        Err(ContractError::Std(StdError::NotFound { kind })) => assert_eq!(kind, "alloc::string::String"),
        other => panic!("unexpected {:?}", other),
    }
    assert!(c.mint_positions.is_empty());
}

#[test]
fn repay_partly_then_fully() {
    let mut c = setup("0.7", "0.05");
    mint(&mut c, "alice", vec![coin(100, "inj")], 500, Some(price(10)), Some(price(1))).unwrap();
    let r = c.execute_repay(&env(1_000), info("bob", vec![coin(200, DEBT)]), 0).unwrap();
    assert_eq!(r.messages.len(), 1);
    assert!(matches!(&r.messages[0], ContractMsg::BurnTokens { amount, .. } if amount.amount == 200));
    assert_eq!(c.mint_positions[0].record.minted_asset.amount, 300);
    let r = c.execute_repay(&env(1_000), info("bob", vec![coin(300, DEBT)]), 0).unwrap();
    assert_eq!(r.messages.len(), 2);
    match &r.messages[1] {
        ContractMsg::BankSend { to_address, amount } => {
            assert_eq!(to_address, "alice");
            assert_eq!(amount.len(), 1);
            assert_eq!(amount[0].denom, "inj");
            assert_eq!(amount[0].amount, 100);
        }
        other => panic!("unexpected {:?}", other),
    }
    assert!(c.mint_positions.is_empty());
    // the identifier stays listed under the minter
    assert_eq!(c.user_position_ids(&"alice".to_string()), vec![0]);
    assert!(c.check_wf());
}

#[test]
fn repay_refusals() {
    let mut c = setup("0.7", "0.05");
    mint(&mut c, "alice", vec![coin(100, "inj")], 500, Some(price(10)), Some(price(1))).unwrap();
    assert!(matches!(c.execute_repay(&env(1), info("b", vec![]), 0), Err(ContractError::InvalidFunds)));
    assert!(matches!(c.execute_repay(&env(1), info("b", vec![coin(1, DEBT)]), 9), Err(ContractError::InvalidPositionId)));
    match c.execute_repay(&env(1), info("b", vec![coin(1, "inj")]), 0) {
        Err(ContractError::MismatchDenomRedeem { denom_debt }) => assert_eq!(denom_debt, DEBT),
        other => panic!("unexpected {:?}", other),
    }
    assert!(matches!(c.execute_repay(&env(1), info("b", vec![coin(501, DEBT)]), 0), Err(ContractError::InvalidFunds)));
    assert_eq!(c.mint_positions[0].record.minted_asset.amount, 500);
}

#[test]
fn liquidation_splits_collateral() {
    let mut c = setup("0.7", "0.05");
    // 100 of debt against 200 inj at equal prices: a ratio of 0.5
    mint(&mut c, "alice", vec![coin(200, "inj")], 100, Some(price(1)), Some(price(1))).unwrap();
    // the debt's price rises to 1.6: a ratio of 0.8, above 0.7
    let cp = Some(price(1));
    let dp = Some(Decimal::from_raw_u64(1_600_000_000_000_000_000));
    let i = info("liq", vec![coin(100, DEBT)]);
    assert!(c.liquidate_arithmetic_ok(&i, 0, &cp, &dp));
    let r = c.execute_liquidate(&env(1), i, 0, cp, dp).unwrap();
    assert_eq!(r.messages.len(), 3);
    match (&r.messages[0], &r.messages[1]) {
        (ContractMsg::BankSend { to_address: a, amount: x }, ContractMsg::BankSend { to_address: b, amount: y }) => {
            assert_eq!(a, "liq");
            assert_eq!(b, "alice");
            // 160 units worth the debt and a fee of 0.05 * 200
            assert_eq!(x[0].amount, 170);
            assert_eq!(y[0].amount, 30);
            assert_eq!(x[0].denom, "inj");
            assert_eq!(y[0].denom, "inj");
        }
        other => panic!("unexpected {:?}", other),
    }
    assert!(matches!(&r.messages[2], ContractMsg::BurnTokens { amount, .. } if amount.amount == 100 && amount.denom == DEBT));
    assert!(c.mint_positions.is_empty());
    assert!(c.user_position_ids(&"alice".to_string()).is_empty());
    assert!(c.check_wf());
}

#[test]
fn liquidation_rounds_units_down() {
    let mut c = setup("0.5", "0.03");
    mint(&mut c, "alice", vec![coin(5, "inj")], 1, Some(price(1)), Some(price(1))).unwrap();
    // debt worth 4.5 against 5: a ratio of 0.9
    let cp = Some(price(1));
    let dp = Some(Decimal::from_raw_u64(4_500_000_000_000_000_000));
    let i = info("liq", vec![coin(1, DEBT)]);
    assert!(c.liquidate_arithmetic_ok(&i, 0, &cp, &dp));
    let r = c.execute_liquidate(&env(1), i, 0, cp, dp).unwrap();
    match (&r.messages[0], &r.messages[1]) {
        (ContractMsg::BankSend { amount: x, .. }, ContractMsg::BankSend { amount: y, .. }) => {
            // 4 whole units of 4.5, and a fee of 0.15 rounded down to 0
            assert_eq!(x[0].amount, 4);
            assert_eq!(y[0].amount, 1);
        }
        other => panic!("unexpected {:?}", other),
    }
}

#[test]
fn mint_at_the_ratio_is_refused() {
    let mut c = setup("0.7", "0.05");
    // 70 of debt against 100 inj at equal prices: exactly the ratio
    let r = mint(&mut c, "alice", vec![coin(100, "inj")], 70, Some(price(1)), Some(price(1)));
    assert!(matches!(r, Err(ContractError::InsufficientCollateral { .. })));
    assert!(c.mint_positions.is_empty());
    // just below it
    assert!(mint(&mut c, "alice", vec![coin(100, "inj")], 69, Some(price(1)), Some(price(1))).is_ok());
}

#[test]
fn liquidation_refusals() {
    let mut c = setup("0.7", "0.05");
    mint(&mut c, "alice", vec![coin(100, "inj")], 500, Some(price(10)), Some(price(1))).unwrap();
    let i = info("liq", vec![coin(499, DEBT)]);
    assert!(matches!(c.execute_liquidate(&env(1), i, 0, Some(price(10)), Some(price(1))), Err(ContractError::MismatchFundsMintedAssetsInLiquidation)));
    // collateral still worth 1000 against 500 of debt
    let i = info("liq", vec![coin(500, DEBT)]);
    assert!(c.liquidate_arithmetic_ok(&i, 0, &Some(price(10)), &Some(price(1))));
    assert!(matches!(c.execute_liquidate(&env(1), i, 0, Some(price(10)), Some(price(1))), Err(ContractError::PositionEnoughCapitalNoLiquidation)));
    let i = info("liq", vec![coin(500, DEBT)]);
    assert!(matches!(c.execute_liquidate(&env(1), i, 0, None, Some(price(1))), Err(ContractError::NoValidMidpriceFound)));
    // collateral worth 100 against 500: liquidation would hand out more
    // collateral than the position holds, which the arithmetic test reports
    let i = info("liq", vec![coin(500, DEBT)]);
    assert!(!c.liquidate_arithmetic_ok(&i, 0, &Some(price(1)), &Some(price(1))));
    assert_eq!(c.mint_positions.len(), 1);
}

#[test]
fn admin_messages_need_admin() {
    let mut c = setup("0.7", "0.05");
    let r = c.route_admin_execute(&env(1), &info("mallory", vec![]), AdminExecuteMsg::RegisterDebtToken { denom: "x".to_string(), expiry: 5 }, no_admin());
    assert!(matches!(r, Err(ContractError::Unauthorized)));
    assert_eq!(c.debt_expiration.len(), 1);
    let r = c.route_admin_execute(&env(1), &info("admin", vec![]), AdminExecuteMsg::UpdateAdmin { new_admin: "bad".to_string() }, Err(StdError::GenericErr { msg: "invalid address".to_string() }));
    assert!(matches!(r, Err(ContractError::Std(StdError::GenericErr { .. }))));
    let r = c.route_admin_execute(&env(1), &info("admin", vec![]), AdminExecuteMsg::UpdateAdmin { new_admin: "carol".to_string() }, Ok("carol".to_string()));
    assert!(r.is_ok());
    assert_eq!(c.get_admin().admin, Some("carol".to_string()));
    let r = c.route_admin_execute(&env(1), &info("admin", vec![]), AdminExecuteMsg::RegisterDebtToken { denom: "x".to_string(), expiry: 5 }, no_admin());
    assert!(matches!(r, Err(ContractError::Unauthorized)));
}

#[test]
fn create_debt_token_records_factory_denom() {
    let mut c = setup("0.7", "0.05");
    let msgs = admin_exec(&mut c, AdminExecuteMsg::CreateDebtToken { subdenom: "usdt_31dec23".to_string(), expiry: 77 }).unwrap();
    assert!(matches!(&msgs[0], ContractMsg::CreateDenom { sender, subdenom } if sender == "contract" && subdenom == "usdt_31dec23"));
    assert_eq!(c.debt_expiration.len(), 2);
    assert_eq!(c.debt_expiration[1].denom, "factory/contract/usdt_31dec23");
    assert_eq!(c.debt_expiration[1].expiry, 77);
    // registering again overwrites the expiry
    admin_exec(&mut c, AdminExecuteMsg::RegisterDebtToken { denom: "factory/contract/usdt_31dec23".to_string(), expiry: 88 }).unwrap();
    assert_eq!(c.debt_expiration.len(), 2);
    assert_eq!(c.debt_expiration[1].expiry, 88);
}

#[test]
fn other_admin_messages() {
    let mut c = setup("0.7", "0.05");
    let msgs = admin_exec(&mut c, AdminExecuteMsg::MintDenom { mint_data: coin(5, DEBT) }).unwrap();
    assert!(matches!(&msgs[0], ContractMsg::MintTokens { mint_to, amount, .. } if mint_to == "admin" && amount.amount == 5));
    let msgs = admin_exec(&mut c, AdminExecuteMsg::SetTokenMetadata { denom: DEBT.to_string(), denom_name: "Bond".to_string(), symbol: "BND".to_string(), decimals: 6 }).unwrap();
    assert!(matches!(&msgs[0], ContractMsg::SetTokenMetadata { name, symbol, decimals, .. } if name == "Bond" && symbol == "BND" && *decimals == 6));
    admin_exec(&mut c, AdminExecuteMsg::RegisterMarket { base_currency: "inj".to_string(), quote_currency: "usdt".to_string(), market_id: "m2".to_string() }).unwrap();
    let markets = c.get_registered_markets().markets;
    assert_eq!(markets.len(), 2);
    assert_eq!(markets[0].market_id, "m2");
    assert_eq!(markets[1].base_currency, DEBT);
}

#[test]
fn execute_dispatch() {
    let mut c = setup("0.7", "0.05");
    let r = c.route_execute(&env(1), info("a", vec![]), ExecuteMsg::Admin(AdminExecuteMsg::MintDenom { mint_data: coin(1, "x") }), None, None);
    assert!(matches!(r, Err(ContractError::Never)));
    let r = c.execute(&env(1), info("a", vec![]), ExecuteMsg::Admin(AdminExecuteMsg::MintDenom { mint_data: coin(1, "x") }), None, None, no_admin());
    assert!(matches!(r, Err(ContractError::Unauthorized)));
    let r = c.execute(&env(1_000), info("a", vec![coin(100, "inj")]), ExecuteMsg::Mint { target_denom: DEBT.to_string(), quantity: 1 }, Some(price(10)), Some(price(1)), no_admin());
    assert!(r.is_ok());
    let r = c.execute(&env(1_000), info("a", vec![coin(1, DEBT)]), ExecuteMsg::Repay { position_id: 0 }, None, None, no_admin());
    assert!(r.is_ok());
    assert!(c.migrate(MigrateMsg {}).unwrap().messages.is_empty());
}

#[test]
fn queries_report_positions() {
    let mut c = setup("0.7", "0.05");
    mint(&mut c, "alice", vec![coin(100, "inj")], 500, Some(price(10)), Some(price(1))).unwrap();
    mint(&mut c, "bob", vec![coin(100, "inj")], 300, Some(price(10)), Some(price(1))).unwrap();
    let r = c.get_user_mint_positions(&"alice".to_string());
    assert_eq!(r.mint_positions.len(), 1);
    assert_eq!(r.mint_positions[0].minted_asset.amount, 500);
    let prices = vec![price(2)];
    let r = c.get_user_mint_positions_with_collateral_ratio(&"bob".to_string(), &price(10), &prices);
    // 300 * 2 / (100 * 10) = 0.6
    assert_eq!(r.mint_positions[0].position_id, 1);
    assert_eq!(r.mint_positions[0].collateral_ratio.limbs[0], 600_000_000_000_000_000);
    let r = c.get_mint_position(0, &price(10), &vec![price(1)]);
    assert_eq!(r.position.unwrap().collateral_ratio.limbs[0], 500_000_000_000_000_000);
    assert!(c.get_mint_position(7, &price(10), &vec![]).position.is_none());
    let b = c.get_batch_mint_positions(1, 10, &price(10), &vec![price(1)]);
    assert_eq!(b.positions.len(), 1);
    assert_eq!(b.positions[0].minter, "bob");
    assert_eq!(c.batch_mint_positions(0, 1).len(), 1);
    assert_eq!(c.batch_mint_positions(0, 5).len(), 2);
    assert!(c.batch_mint_positions(2, 5).is_empty());
    let t = c.get_debt_tokens();
    assert_eq!(t.tokens.len(), 1);
    assert_eq!(t.tokens[0].market_record.ticker, format!("{}/usdt", DEBT));
    assert_eq!(t.tokens[0].market_record.market_id, "m-debt");
    assert_eq!(t.tokens[0].expiry, EXPIRY);
    let q = QueryMsg::GetProtocolSettings;
    assert!(c.query_ok(&q, &price(1), &vec![]));
    assert!(matches!(c.route_query(q, &price(1), &vec![]), QueryResponse::ProtocolSettings(_)));
    // after a full repayment the stale identifier makes the listing panic
    c.execute_repay(&env(1), info("x", vec![coin(500, DEBT)]), 0).unwrap();
    assert!(!c.check_user_positions_open(&"alice".to_string()));
    assert!(!c.query_ok(&QueryMsg::GetUserMintPositions { user_address: "alice".to_string() }, &price(1), &vec![]));
}

#[test]
fn debt_tokens_without_market_cannot_be_listed() {
    let mut c = setup("0.7", "0.05");
    admin_exec(&mut c, AdminExecuteMsg::RegisterDebtToken { denom: "lonely".to_string(), expiry: 1 }).unwrap();
    assert!(!c.check_debt_tokens_priced());
}

#[test]
fn listings_come_in_storage_order() {
    let mut c = setup("0.7", "0.05");
    for (base, id) in [("b", "m-b"), ("ab", "m-ab"), ("a", "m-a")] {
        admin_exec(
            &mut c,
            AdminExecuteMsg::RegisterMarket {
                base_currency: base.to_string(),
                quote_currency: "usdt".to_string(),
                market_id: id.to_string(),
            },
        )
        .unwrap();
    }
    // shorter base currencies first, then by their bytes
    let ids: Vec<String> = c.get_registered_markets().markets.into_iter().map(|m| m.market_id).collect();
    assert_eq!(ids, vec!["m-a", "m-b", "m-ab", "m-inj", "m-debt"]);
    admin_exec(&mut c, AdminExecuteMsg::RegisterDebtToken { denom: "b".to_string(), expiry: 5 }).unwrap();
    admin_exec(&mut c, AdminExecuteMsg::RegisterDebtToken { denom: "ab".to_string(), expiry: 6 }).unwrap();
    // debt tokens come by their denomination's bytes
    let denoms: Vec<String> = c.get_debt_tokens().tokens.into_iter().map(|t| t.denom).collect();
    assert_eq!(denoms, vec!["ab".to_string(), "b".to_string(), DEBT.to_string()]);
}

#[test]
fn register_then_remove_market_restores_state() {
    let mut c = setup("0.7", "0.15");
    let before = format!("{:?}", c);
    let msgs = admin_exec(
        &mut c,
        AdminExecuteMsg::RegisterMarket {
            base_currency: "atom".to_string(),
            quote_currency: "usdt".to_string(),
            market_id: "m-atom".to_string(),
        },
    )
    .unwrap();
    assert!(msgs.is_empty());
    assert_ne!(format!("{:?}", c), before);
    let remove = || AdminExecuteMsg::RemoveMarket { base_currency: "atom".to_string(), quote_currency: "usdt".to_string() };
    assert!(admin_exec(&mut c, remove()).unwrap().is_empty());
    assert_eq!(format!("{:?}", c), before);
    assert!(admin_exec(&mut c, remove()).unwrap().is_empty());
    assert_eq!(format!("{:?}", c), before);
}
