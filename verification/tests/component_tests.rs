use lend_protocol::account::{BaseAccount, EthAccount};
use lend_protocol::decimal::{div_defined, mul_int_fits, str_overflows, Decimal};
use lend_protocol::error::ContractError;
use lend_protocol::mock_module::{CustomInjective, InjectiveCustomError};
use lend_protocol::msg::InstantiateMsg;
use lend_protocol::state::Contract;
use lend_protocol::contract_query::{price_denoms, prices_per_position};
use lend_protocol::structs::{Coin, DebtTokenStatus, MintPositionRecord};
use lend_protocol::msg::MessageInfo;
use lend_protocol::utils::{parse_debt_token_components, validate_debt_token, validate_single_fund};
use sha2::{Digest, Sha256};

fn coin(amount: u128, denom: &str) -> Coin {
    Coin { denom: denom.to_string(), amount }
}

#[test]
fn decimal_parsing() {
    let d = Decimal::parse("1.5").unwrap();
    assert_eq!(d.limbs, [1_500_000_000_000_000_000, 0, 0, 0]);
    assert_eq!(d.sign, 1);
    let d = Decimal::parse("-1.23").unwrap();
    assert_eq!(d.limbs, [1_230_000_000_000_000_000, 0, 0, 0]);
    assert_eq!(d.sign, 0);
    let d = Decimal::parse("-0").unwrap();
    assert_eq!(d.sign, 1);
    assert!(Decimal::parse("abc").is_none());
    assert!(Decimal::parse("0.1234567890123456789").is_none());
    // 2^64 units need the second limb
    let d = Decimal::parse("18.446744073709551616").unwrap();
    assert_eq!(d.limbs, [0, 1, 0, 0]);
}

#[test]
fn decimal_overflow_tests() {
    let big = Decimal::new([0, 0, 0, 1 << 63], 1);
    assert!(mul_int_fits(&big, 1));
    assert!(!mul_int_fits(&big, 2));
    assert!(!mul_int_fits(&big, -2));
    let one = Decimal::from_raw_u64(1_000_000_000_000_000_000);
    let zero = Decimal::from_raw_u64(0);
    assert!(div_defined(&big, &one));
    assert!(!div_defined(&one, &zero));
    assert!(!div_defined(&big, &Decimal::from_raw_u64(2)));
    assert!(div_defined(&one, &Decimal::from_raw_u64(2)));
}

#[test]
fn single_fund() {
    assert!(matches!(validate_single_fund(vec![]), Err(ContractError::InvalidFunds)));
    assert!(matches!(validate_single_fund(vec![coin(1, "a"), coin(2, "b")]), Err(ContractError::InvalidFunds)));
    let c = validate_single_fund(vec![coin(7, "inj")]).unwrap();
    assert_eq!(c.amount, 7);
    assert_eq!(c.denom, "inj");
}

#[test]
fn debt_token_status() {
    assert_eq!(DebtTokenStatus::from_expiration(10, 9), DebtTokenStatus::Live);
    assert_eq!(DebtTokenStatus::from_expiration(10, 10), DebtTokenStatus::Expired);
    assert_eq!(DebtTokenStatus::from_expiration(10, 11), DebtTokenStatus::Expired);
    let msg = InstantiateMsg { collateral_ratio: "0.7".to_string(), liquidation_fee_pct: "0.05".to_string() };
    let info = MessageInfo { sender: "admin".to_string(), funds: vec![] };
    let (mut c, _) = Contract::try_instantiate(&info, &msg).unwrap();
    assert!(matches!(validate_debt_token(&c, "t".to_string(), 5), Err(ContractError::UnknownToken)));
    c.execute_register_debt_token("t".to_string(), 10);
    assert_eq!(validate_debt_token(&c, "t".to_string(), 5).unwrap(), DebtTokenStatus::Live);
    assert_eq!(validate_debt_token(&c, "t".to_string(), 10).unwrap(), DebtTokenStatus::Expired);
}

#[test]
fn token_components() {
    parse_debt_token_components("factory/inj1abc/bond".to_string(), "inj1abc".to_string());
    parse_debt_token_components("a/b".to_string(), "x".to_string());
}

#[test]
fn eth_account_fields() {
    let mut a = EthAccount::new();
    assert!(!a.has_base_account());
    assert_eq!(a.get_base_account().account_number, 0);
    assert!(a.get_code_hash().is_empty());
    a.mut_base_account().sequence = 4;
    assert!(a.has_base_account());
    assert_eq!(a.get_base_account().sequence, 4);
    let mut b = BaseAccount::new();
    b.address = "inj1xyz".to_string();
    a.set_base_account(b);
    assert_eq!(a.get_base_account().address, "inj1xyz");
    let taken = a.take_base_account();
    assert_eq!(taken.address, "inj1xyz");
    assert!(!a.has_base_account());
    assert_eq!(a.take_base_account().address, "");
    a.set_base_account(BaseAccount::new());
    a.clear_base_account();
    assert!(!a.has_base_account());
    a.set_code_hash(vec![1, 2, 3]);
    assert_eq!(a.get_code_hash(), &[1, 2, 3]);
    a.mut_code_hash().push(4);
    assert_eq!(a.get_code_hash(), &[1, 2, 3, 4]);
    assert_eq!(a.take_code_hash(), vec![1, 2, 3, 4]);
    assert!(a.get_code_hash().is_empty());
    a.set_code_hash(vec![9]);
    a.clear_code_hash();
    assert!(a.get_code_hash().is_empty());
}

#[test]
fn create_market() {
    let base_currency = "inj".to_string();
    let quote_currency = "usdt".to_string();
    let market_id = CustomInjective::market_id(&base_currency, &quote_currency);
    assert_eq!(market_id, "0x8fa3ec71425d88403c3a35345011c966f8bcb18837f4ac9fb4c6ecd16b2a1a40");
    assert_eq!(market_id, format!("0x{}", hex::encode(Sha256::digest(b"inj_usdt"))));
    assert_eq!(CustomInjective::market_key(&base_currency, &quote_currency), "markets_inj_usdt");
    let key = CustomInjective::midprice_key(&market_id);
    assert_eq!(key, format!("midprice_{}", market_id));
    assert_eq!(market_id.len(), 66);
}

#[test]
fn midprice_is_read_from_stored_text() {
    let module = CustomInjective::new();
    let mid_price = module.read_midprice(Some(b"1.5".to_vec())).unwrap();
    assert_eq!(mid_price.limbs, [1_500_000_000_000_000_000, 0, 0, 0]);
    assert_eq!(mid_price.sign, 1);
    let negative = module.read_midprice(Some(b"-0.25".to_vec())).unwrap();
    assert_eq!(negative.limbs, [250_000_000_000_000_000, 0, 0, 0]);
    assert_eq!(negative.sign, 0);
    assert!(matches!(module.read_midprice(None), Err(InjectiveCustomError::UnknownMarket)));
    assert!(matches!(module.read_midprice(Some(vec![0xff, 0x31])), Err(InjectiveCustomError::MidpriceNotUtf8)));
    assert!(matches!(module.read_midprice(Some(b"1.2.3".to_vec())), Err(InjectiveCustomError::MidpriceNotDecimal)));
    assert!(matches!(module.read_midprice(Some(b"abc".to_vec())), Err(InjectiveCustomError::MidpriceNotDecimal)));
}

#[test]
fn mint_through_custom() {
    let module = CustomInjective::new();
    let user_address = "user".to_string();
    let denom = "test_dollar_tokenfactory".to_string();
    let key = CustomInjective::denom_key(&user_address, &denom);
    assert_eq!(key, "tokenfactory/user/test_dollar_tokenfactory");
    // create denom
    assert!(module.create_denom(&None).is_ok());
    let recorded = Some(user_address.as_bytes().to_vec());
    assert!(matches!(module.create_denom(&recorded), Err(InjectiveCustomError::DenomAlreadyExists)));
    // and mint
    assert!(module.check_mint(&recorded, &user_address.as_bytes().to_vec()).is_ok());
    assert!(matches!(module.check_mint(&None, &user_address.as_bytes().to_vec()), Err(InjectiveCustomError::UnknownDenom)));
    let minted = format!("tokenfactory/{}/{}", user_address, denom);
    let balance = vec![coin(1000, &minted)];
    // burn it
    let left = module.burn(balance, coin(500, &minted)).unwrap();
    assert_eq!(left.len(), 1);
    assert_eq!(left[0].amount, 500);
    assert_eq!(left[0].denom, minted);
    let gone = module.burn(left, coin(500, &minted)).unwrap();
    assert!(gone.is_empty());
    assert!(module.burn(vec![coin(10, &minted)], coin(11, &minted)).is_none());
    assert!(module.burn(vec![coin(10, "other")], coin(1, &minted)).is_none());
    assert!(matches!(module.unsupported(), InjectiveCustomError::NotImplemented));
}

fn record(denom: &str, amount: u128) -> MintPositionRecord {
    MintPositionRecord {
        collateral_asset: Coin { denom: "inj".to_string(), amount: 10 },
        minted_asset: Coin { denom: denom.to_string(), amount },
    }
}

#[test]
fn each_minted_denom_is_priced_once() {
    let records = vec![record("bond_a", 1), record("bond_b", 2), record("bond_a", 3)];
    assert_eq!(price_denoms(&records), vec!["bond_a".to_string(), "bond_b".to_string()]);
    let prices = prices_per_position(&records, &vec![Decimal::from_raw_u64(7), Decimal::from_raw_u64(9)]);
    let raw: Vec<u64> = prices.iter().map(|p| p.limbs[0]).collect();
    assert_eq!(raw, vec![7, 9, 7]);
    assert!(price_denoms(&vec![]).is_empty());
}

#[test]
fn decimal_strings_that_overflow() {
    let big = format!("1{}", "0".repeat(69));
    assert!(str_overflows(&big));
    assert!(str_overflows(&format!("-{}", big)));
    assert!(!str_overflows("1.5"));
    assert!(!str_overflows("abc"));
    assert!(!str_overflows(&format!("1{}", "0".repeat(79))));
    let edge = "115792089237316195423570985008687907853269984665640564039457";
    assert!(!str_overflows(&format!("{}.584007913129639935", edge)));
    assert!(str_overflows(&format!("{}.584007913129639936", edge)));
    assert!(!str_overflows(&format!("{}.5840079131296399360", edge)));
    assert!(!str_overflows(&format!("{}.5.8", edge)));
    let msg = InstantiateMsg { collateral_ratio: big, liquidation_fee_pct: "0.05".to_string() };
    assert!(Contract::try_instantiate(&MessageInfo { sender: "admin".to_string(), funds: vec![] }, &msg).is_none());
}
