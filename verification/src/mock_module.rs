//! A stand-in for the chain's token factory and exchange modules, for
//! running the contract off-chain: the decisions it makes about creating,
//! minting and burning denominations and about market prices, and the
//! storage keys and market identifiers it uses.
use crate::account::string_from_utf8;
use crate::decimal::{fp_from_str, fp_parse, from_str_overflows, Decimal};
use crate::structs::Coin;
use sha2::{Digest, Sha256};
use vstd::prelude::*;
use vstd::utf8::*;

verus! {

/// Errors the stand-in module answers with.
#[derive(Debug)]
pub enum InjectiveCustomError {
    GenericError { msg: String },
    Never,
    NotImplemented,
    DenomAlreadyExists,
    UnknownDenom,
    Unauthorized,
    UnknownMarket,
    /// A stored mid price that is not UTF-8 text.
    MidpriceNotUtf8,
    /// A stored mid price that is not a decimal number.
    MidpriceNotDecimal,
}

/// The name of what `sha2::Sha256` digests a byte string to.
pub uninterp spec fn sha256_of(data: Seq<u8>) -> Seq<u8>;

/// Calls `Sha256::new`, `update` and `finalize`. Its contract claims the
/// digest named `sha256_of` for the same bytes, 32 bytes long.
#[verifier::external_body]
fn sha256_digest(data: &[u8]) -> (r: Vec<u8>)
    ensures
        r@ == sha256_of(data@),
        r@.len() == 32,
{
    let mut hasher = Sha256::new();
    hasher.update(data);
    hasher.finalize().to_vec()
}

/// The lowercase hexadecimal digit for `n < 16`.
pub open spec fn hex_digit(n: int) -> char {
    if n < 10 {
        (48 + n) as char
    } else {
        (87 + n) as char
    }
}

/// Two lowercase hexadecimal digits per byte, high nibble first.
pub open spec fn hex_of(bytes: Seq<u8>) -> Seq<char>
    decreases bytes.len(),
{
    if bytes.len() == 0 {
        Seq::empty()
    } else {
        let b = bytes.last() as int;
        hex_of(bytes.drop_last()) + seq![hex_digit(b / 16), hex_digit(b % 16)]
    }
}

/// Two characters per byte.
proof fn lemma_hex_len(bytes: Seq<u8>)
    ensures
        hex_of(bytes).len() == 2 * bytes.len(),
    decreases bytes.len(),
{
    if bytes.len() > 0 {
        lemma_hex_len(bytes.drop_last());
    }
}

/// Calls `hex::encode`. Its contract claims what the source computes: each
/// byte becomes two characters of `0123456789abcdef`, high nibble first.
#[verifier::external_body]
fn hex_encode(bytes: &[u8]) -> (r: String)
    ensures
        r@ == hex_of(bytes@),
{
    hex::encode(bytes)
}

/// Two coin lists hold the same denominations and amounts in the same order.
pub open spec fn coins_match(a: Seq<Coin>, b: Seq<Coin>) -> bool {
    a.len() == b.len() && forall|k: int| 0 <= k < a.len() ==> (#[trigger] a[k]).same_as(b[k])
}

/// What `NativeBalance - Coin` leaves of a balance: the first coin of the
/// denomination loses the amount and is dropped when nothing is left of it;
/// `None` where there is no such coin or not enough of it.
pub open spec fn balance_after_sub(balance: Seq<Coin>, amount: Coin) -> Option<Seq<Coin>> {
    if exists|i: int| 0 <= i < balance.len() && #[trigger] balance[i].denom@ == amount.denom@ {
        let i = choose|i: int|
            0 <= i < balance.len() && #[trigger] balance[i].denom@ == amount.denom@ && forall|j: int|
                0 <= j < i ==> balance[j].denom@ != amount.denom@;
        if balance[i].amount < amount.amount {
            None
        } else if balance[i].amount == amount.amount {
            Some(balance.remove(i))
        } else {
            Some(
                balance.update(
                    i,
                    Coin { denom: balance[i].denom, amount: (balance[i].amount - amount.amount) as u128 },
                ),
            )
        }
    } else {
        None
    }
}

/// Calls `<cw_utils::NativeBalance as Sub<Coin>>::sub`. Its contract claims
/// what the source computes (`balance_after_sub`), with `None` for its error.
#[verifier::external_body]
fn native_balance_sub(balance: Vec<Coin>, amount: Coin) -> (r: Option<Vec<Coin>>)
    ensures
        r is Some <==> balance_after_sub(balance@, amount) is Some,
        r matches Some(v) ==> coins_match(v@, balance_after_sub(balance@, amount).unwrap()),
{
    let b = cw_utils::NativeBalance(
        balance.into_iter().map(|c| cosmwasm_std::Coin::new(c.amount, c.denom)).collect(),
    );
    match b - cosmwasm_std::Coin::new(amount.amount, amount.denom) {
        Ok(left) => Some(left.into_vec().into_iter().map(|c| Coin { denom: c.denom, amount: c.amount.u128() }).collect()),
        Err(_) => None,
    }
}

/// The stand-in module itself; it keeps its records in the chain's storage.
#[derive(Debug)]
pub struct CustomInjective {}

/// The storage key under which the token factory records who created
/// `tokenfactory/{creator}/{subdenom}`.
pub open spec fn denom_key_of(creator: Seq<char>, subdenom: Seq<char>) -> Seq<char> {
    "tokenfactory/"@ + creator + "/"@ + subdenom
}

/// The storage key of a market's mid price.
pub open spec fn midprice_key_of(market_id: Seq<char>) -> Seq<char> {
    "midprice_"@ + market_id
}

/// The storage key under which a created market's identifier is kept.
pub open spec fn market_key_of(base: Seq<char>, quote: Seq<char>) -> Seq<char> {
    "markets_"@ + base + "_"@ + quote
}

/// The identifier of the market `base`/`quote`: `0x` and the hexadecimal
/// SHA-256 digest of `{base}_{quote}`.
pub open spec fn market_id_of(base: Seq<char>, quote: Seq<char>) -> Seq<char> {
    "0x"@ + hex_of(sha256_of(vstd::utf8::encode_utf8(base + "_"@ + quote)))
}

impl CustomInjective {
    /// The module (it holds no state of its own).
    pub fn new() -> (r: CustomInjective) {
        CustomInjective {}
    }

    /// The storage key recording the creator of a denomination.
    pub fn denom_key(creator: &String, subdenom: &String) -> (r: String)
        ensures
            r@ == denom_key_of(creator@, subdenom@),
    {
        let mut k = "tokenfactory/".to_owned();
        k.append(creator.as_str());
        k.append("/");
        k.append(subdenom.as_str());
        k
    }

    /// Creating a denomination: refused where its key is already recorded
    /// (the caller then records the creator under it).
    pub fn create_denom(&self, existing: &Option<Vec<u8>>) -> (r: Result<(), InjectiveCustomError>)
        ensures
            r is Ok <==> existing is None,
            r matches Err(e) ==> e is DenomAlreadyExists,
    {
        match existing {
            None => Ok(()),
            Some(_) => Err(InjectiveCustomError::DenomAlreadyExists),
        }
    }

    /// Minting: refused for a denomination nobody created; the recorded
    /// creator must be the sender (the module asserts it, and panics
    /// otherwise, which `requires` leaves out).
    pub fn check_mint(&self, denom_admin: &Option<Vec<u8>>, msg_sender: &Vec<u8>) -> (r: Result<(), InjectiveCustomError>)
        requires
            denom_admin matches Some(a) ==> a@ == msg_sender@,
        ensures
            r is Ok <==> denom_admin is Some,
            r matches Err(e) ==> e is UnknownDenom,
    {
        match denom_admin {
            None => Err(InjectiveCustomError::UnknownDenom),
            Some(_) => Ok(()),
        }
    }

    /// Burning `amount` from the sender's balance: what is left of it, or
    /// `None` where the balance holds too little of the denomination.
    pub fn burn(&self, balance: Vec<Coin>, amount: Coin) -> (r: Option<Vec<Coin>>)
        ensures
            r is Some <==> balance_after_sub(balance@, amount) is Some,
            r matches Some(v) ==> coins_match(v@, balance_after_sub(balance@, amount).unwrap()),
    {
        native_balance_sub(balance, amount)
    }

    /// The storage key of a market's mid price.
    pub fn midprice_key(market_id: &String) -> (r: String)
        ensures
            r@ == midprice_key_of(market_id@),
    {
        let mut k = "midprice_".to_owned();
        k.append(market_id.as_str());
        k
    }

    /// Reading a market's mid price from what storage holds under its key:
    /// `UnknownMarket` where nothing is stored, `MidpriceNotUtf8` where the
    /// bytes are not UTF-8, `MidpriceNotDecimal` where the text is not a
    /// decimal, and otherwise the decimal it spells. The parser panics on
    /// the decimals too large for it, which `requires` leaves out.
    pub fn read_midprice(&self, stored: Option<Vec<u8>>) -> (r: Result<Decimal, InjectiveCustomError>)
        requires
            (stored matches Some(b) && valid_utf8(b@)) ==> !from_str_overflows(decode_utf8(stored.unwrap()@)),
        ensures
            stored is None ==> (r matches Err(e) && e is UnknownMarket),
            stored matches Some(b) ==> (r is Ok <==> valid_utf8(b@) && fp_parse(decode_utf8(b@)) is Some),
            (stored matches Some(b) && !valid_utf8(b@)) ==> (r matches Err(e) && e is MidpriceNotUtf8),
            (stored matches Some(b) && valid_utf8(b@) && fp_parse(decode_utf8(b@)) is None) ==> (r matches Err(e)
                && e is MidpriceNotDecimal),
            r matches Ok(d) ==> fp_parse(decode_utf8(stored.unwrap()@)) == Some((d@.num, d@.sign)),
    {
        let bytes = match stored {
            Some(b) => b,
            None => return Err(InjectiveCustomError::UnknownMarket),
        };
        let text = match string_from_utf8(bytes) {
            Some(t) => t,
            None => return Err(InjectiveCustomError::MidpriceNotUtf8),
        };
        match fp_from_str(text.as_str()) {
            Some(d) => Ok(d),
            None => Err(InjectiveCustomError::MidpriceNotDecimal),
        }
    }

    /// The storage key under which a created market's identifier is kept.
    pub fn market_key(base: &String, quote: &String) -> (r: String)
        ensures
            r@ == market_key_of(base@, quote@),
    {
        let mut k = "markets_".to_owned();
        k.append(base.as_str());
        k.append("_");
        k.append(quote.as_str());
        k
    }

    /// The identifier given to a created market `base`/`quote`.
    pub fn market_id(base: &String, quote: &String) -> (r: String)
        ensures
            r@ == market_id_of(base@, quote@),
            r@.len() == 66,
    {
        let mut label = base.clone();
        label.append("_");
        label.append(quote.as_str());
        let digest = sha256_digest(label.as_str().as_bytes());
        let hex = hex_encode(digest.as_slice());
        proof {
            lemma_hex_len(digest@);
            reveal_strlit("0x");
        }
        let mut id = "0x".to_owned();
        id.append(hex.as_str());
        id
    }

    /// Messages and requests the module does not handle are answered
    /// `NotImplemented`.
    pub fn unsupported(&self) -> (r: InjectiveCustomError)
        ensures
            r is NotImplemented,
    {
        InjectiveCustomError::NotImplemented
    }
}

} // verus!
