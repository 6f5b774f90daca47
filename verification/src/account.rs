//! The Ethereum-compatible account message of the chain
//! (`injective.types.v1beta1.EthAccount`), the Cosmos SDK base account
//! (`cosmos.auth.v1beta1.BaseAccount`) and the protobuf `Any` that holds its
//! public key: field accessors, and each message's encoding in the protobuf
//! wire format, its size, and the reading of an encoding into a message.
//!
//! As proto3 messages do, each field is written only where it differs from
//! its default, and fields that a message does not declare are kept and
//! written again after the declared ones.
use crate::wire::{
    add_all, add_unknown, bytes_at, flat, item_wf, lemma_add_all_unknown_items, lemma_bytes_at_split, lemma_items_first,
    lemma_parse_tag_encoding, lemma_parse_varint_encoding, lemma_read_unknown_item, lemma_unknown_bytes_items,
    lemma_unknown_items_wf, unknown_item, unknown_item_fn, unknown_items, unknown_readable,
    UnknownValueModel,
    len_field, len_field_size, push_len_field, push_tag, push_unknown_fields, push_varint, unknown_fields_size,
    varint_size, lemma_parse_unknown_bounds, lemma_varint_from_bounds, parse_len_bytes, parse_tag, parse_unknown,
    parse_varint, read_end, read_len_bytes, read_tag, read_unknown_or_skip_group, read_varint, skip_group, numbers_unique, tag, unknown_bytes, unknown_or_skip, unknown_wf, varint, UnknownFields,
    UnknownValuesModel, WireError, NO_LIMIT, WIRE_END_GROUP, WIRE_LEN, WIRE_VARINT,
};
use vstd::prelude::*;
use vstd::utf8::*;

verus! {

broadcast use {encode_utf8_valid_utf8, encode_utf8_decode_utf8};

/// The content of a [`ProtoAny`].
pub struct AnyModel {
    pub type_url: Seq<char>,
    pub value: Seq<u8>,
    pub unknown: Seq<(u32, UnknownValuesModel)>,
}

/// A protobuf `Any`: a type URL and the encoded value.
#[derive(Debug)]
pub struct ProtoAny {
    pub type_url: String,
    pub value: Vec<u8>,
    pub unknown_fields: UnknownFields,
}

impl View for ProtoAny {
    type V = AnyModel;

    open spec fn view(&self) -> AnyModel {
        AnyModel { type_url: self.type_url@, value: self.value@, unknown: self.unknown_fields@ }
    }
}

/// The content of a [`BaseAccount`].
pub struct BaseAccountModel {
    pub address: Seq<char>,
    pub pub_key: Option<AnyModel>,
    pub account_number: u64,
    pub sequence: u64,
    pub unknown: Seq<(u32, UnknownValuesModel)>,
}

/// The content of the default `Any`.
pub open spec fn default_any() -> AnyModel {
    AnyModel { type_url: Seq::empty(), value: Seq::empty(), unknown: Seq::empty() }
}

/// The content of the default base account.
pub open spec fn default_base_account() -> BaseAccountModel {
    BaseAccountModel {
        address: Seq::empty(),
        pub_key: None,
        account_number: 0,
        sequence: 0,
        unknown: Seq::empty(),
    }
}

/// The Cosmos SDK base account (`cosmos.auth.v1beta1.BaseAccount`).
#[derive(Debug)]
pub struct BaseAccount {
    pub address: String,
    pub pub_key: Option<ProtoAny>,
    pub account_number: u64,
    pub sequence: u64,
    pub unknown_fields: UnknownFields,
}

impl View for BaseAccount {
    type V = BaseAccountModel;

    open spec fn view(&self) -> BaseAccountModel {
        BaseAccountModel {
            address: self.address@,
            pub_key: match self.pub_key {
                Some(k) => Some(k@),
                None => None,
            },
            account_number: self.account_number,
            sequence: self.sequence,
            unknown: self.unknown_fields@,
        }
    }
}

/// The content of an [`EthAccount`].
pub struct EthAccountModel {
    pub base_account: Option<BaseAccountModel>,
    pub code_hash: Seq<u8>,
    pub unknown: Seq<(u32, UnknownValuesModel)>,
}

/// The content of a new account message.
pub open spec fn empty_eth_account() -> EthAccountModel {
    EthAccountModel { base_account: None, code_hash: Seq::empty(), unknown: Seq::empty() }
}

/// An account with its base account and the hash of its contract code.
#[derive(Debug)]
pub struct EthAccount {
    pub base_account: Option<BaseAccount>,
    pub code_hash: Vec<u8>,
    pub unknown_fields: UnknownFields,
}

impl View for EthAccount {
    type V = EthAccountModel;

    open spec fn view(&self) -> EthAccountModel {
        EthAccountModel {
            base_account: match self.base_account {
                Some(b) => Some(b@),
                None => None,
            },
            code_hash: self.code_hash@,
            unknown: self.unknown_fields@,
        }
    }
}

// ---------------------------------------------------------------------------
// Encoding.
/// A string field: absent where empty, else its UTF-8 bytes.
pub open spec fn string_field(field: nat, c: Seq<char>) -> Seq<u8> {
    if c.len() == 0 {
        Seq::empty()
    } else {
        len_field(field, encode_utf8(c))
    }
}

/// A bytes field: absent where empty.
pub open spec fn bytes_field(field: nat, b: Seq<u8>) -> Seq<u8> {
    if b.len() == 0 {
        Seq::empty()
    } else {
        len_field(field, b)
    }
}

/// A `uint64` field: absent where zero.
pub open spec fn uint64_field(field: nat, v: u64) -> Seq<u8> {
    if v == 0 {
        Seq::empty()
    } else {
        tag(field, 0) + varint(v as nat)
    }
}

/// The encoding of an `Any`.
pub open spec fn any_bytes(m: AnyModel) -> Seq<u8> {
    string_field(1, m.type_url) + bytes_field(2, m.value) + unknown_bytes(m.unknown)
}

/// The encoding of a base account; its public key is a nested message.
pub open spec fn base_account_bytes(m: BaseAccountModel) -> Seq<u8> {
    string_field(1, m.address) + (match m.pub_key {
        Some(k) => len_field(2, any_bytes(k)),
        None => Seq::empty(),
    }) + uint64_field(3, m.account_number) + uint64_field(4, m.sequence) + unknown_bytes(m.unknown)
}

/// The encoding of an account message; its base account is a nested message.
pub open spec fn eth_account_bytes(m: EthAccountModel) -> Seq<u8> {
    (match m.base_account {
        Some(b) => len_field(1, base_account_bytes(b)),
        None => Seq::empty(),
    }) + bytes_field(2, m.code_hash) + unknown_bytes(m.unknown)
}

/// An `Any` that can be written: valid undeclared fields, and an encoding
/// that a 32-bit length can give.
pub open spec fn any_wf(m: AnyModel) -> bool {
    unknown_wf(m.unknown) && any_bytes(m).len() <= 0xffff_ffff
}

/// A base account that can be written.
pub open spec fn base_account_wf(m: BaseAccountModel) -> bool {
    &&& unknown_wf(m.unknown)
    &&& (m.pub_key matches Some(k) ==> any_wf(k))
    &&& base_account_bytes(m).len() <= 0xffff_ffff
}

/// An account message that can be written.
pub open spec fn eth_account_wf(m: EthAccountModel) -> bool {
    &&& unknown_wf(m.unknown)
    &&& (m.base_account matches Some(b) ==> base_account_wf(b))
    &&& eth_account_bytes(m).len() <= 0xffff_ffff
}

// ---------------------------------------------------------------------------
// Reading.
/// The string of a string field at `pos`, with the position after it.
pub open spec fn parse_string_field(s: Seq<u8>, pos: int, limit: int, wire_type: u32) -> Result<(Seq<char>, int), WireError> {
    if wire_type != WIRE_LEN {
        Err(WireError::UnexpectedWireType(wire_type))
    } else {
        match parse_len_bytes(s, pos, limit) {
            Err(e) => Err(e),
            Ok((b, n)) => {
                if valid_utf8(b) {
                    Ok((decode_utf8(b), n))
                } else {
                    Err(WireError::Utf8Error)
                }
            },
        }
    }
}

/// The bytes of a bytes field at `pos`, with the position after them.
pub open spec fn parse_bytes_field(s: Seq<u8>, pos: int, limit: int, wire_type: u32) -> Result<(Seq<u8>, int), WireError> {
    if wire_type != WIRE_LEN {
        Err(WireError::UnexpectedWireType(wire_type))
    } else {
        parse_len_bytes(s, pos, limit)
    }
}

/// The value of a `uint64` field at `pos`, with the position after it.
pub open spec fn parse_uint64_field(s: Seq<u8>, pos: int, limit: int, wire_type: u32) -> Result<(u64, int), WireError> {
    if wire_type != WIRE_VARINT {
        Err(WireError::UnexpectedWireType(wire_type))
    } else {
        parse_varint(s, pos, read_end(s, limit))
    }
}

/// Where a nested message at `pos` starts and where its limit is: its
/// length comes first, and it may not end past the enclosing limit.
pub open spec fn parse_nested(s: Seq<u8>, pos: int, limit: int, wire_type: u32) -> Result<(int, int), WireError> {
    if wire_type != WIRE_LEN {
        Err(WireError::UnexpectedWireType(wire_type))
    } else {
        match parse_varint(s, pos, read_end(s, limit)) {
            Err(e) => Err(e),
            Ok((len, n)) => {
                if n + len > limit {
                    Err(WireError::Other)
                } else {
                    Ok((n, n + len))
                }
            },
        }
    }
}

/// The bounds of what the field readers give.
pub proof fn lemma_field_bounds(s: Seq<u8>, pos: int, limit: int, wire_type: u32, number: u32, fs: Seq<(u32, UnknownValuesModel)>)
    ensures
        parse_len_bytes(s, pos, limit) matches Ok((b, n)) ==> pos < n <= read_end(s, limit),
        parse_string_field(s, pos, limit, wire_type) matches Ok((c, n)) ==> pos < n <= read_end(s, limit),
        parse_bytes_field(s, pos, limit, wire_type) matches Ok((b, n)) ==> pos < n <= read_end(s, limit),
        parse_uint64_field(s, pos, limit, wire_type) matches Ok((v, n)) ==> pos < n <= read_end(s, limit),
        parse_nested(s, pos, limit, wire_type) matches Ok((n, l)) ==> pos < n <= read_end(s, limit) && n <= l <= limit,
        unknown_or_skip(s, pos, limit, number, wire_type, fs) matches Ok((u, n)) ==> pos <= n <= read_end(s, limit),
{
    lemma_varint_from_bounds(s, pos, read_end(s, limit), 0);
    lemma_parse_unknown_bounds(s, pos, limit, wire_type);
    lemma_skip_group_bounds(s, pos, limit);
}

/// A skipped group ends after it starts and before the end of reading.
pub proof fn lemma_skip_group_bounds(s: Seq<u8>, pos: int, limit: int)
    ensures
        skip_group(s, pos, limit) matches Ok(n) ==> pos < n <= read_end(s, limit),
    decreases s.len() - pos,
{
    let end = read_end(s, limit);
    lemma_varint_from_bounds(s, pos, end, 0);
    match parse_tag(s, pos, end) {
        Ok((f, w, n)) => {
            if w != WIRE_END_GROUP {
                lemma_parse_unknown_bounds(s, n, limit, w);
                match parse_unknown(s, n, limit, w) {
                    Ok((v, m)) => {
                        lemma_skip_group_bounds(s, m, limit);
                    },
                    Err(e) => {},
                }
            }
        },
        Err(e) => {},
    }
}

/// `m` with the fields encoded from `pos` up to the limit merged into it,
/// and where reading stopped: a string or bytes field or a number replaces
/// the old one, a nested message merges into the old one (a default one
/// where there was none), and an undeclared field is kept.
pub open spec fn merge_any(s: Seq<u8>, pos: int, limit: int, m: AnyModel) -> Result<(AnyModel, int), WireError>
    decreases s.len() - pos,
{
    let end = read_end(s, limit);
    if pos >= end {
        Ok((m, pos))
    } else {
        match parse_tag(s, pos, end) {
            Err(e) => Err(e),
            Ok((f, w, n)) => {
                proof {
                    lemma_varint_from_bounds(s, pos, end, 0);
                    lemma_field_bounds(s, n, limit, w, f, m.unknown);
                }
                if f == 1 {
                    match parse_string_field(s, n, limit, w) {
                        Err(e) => Err(e),
                        Ok((c, k)) => merge_any(s, k, limit, AnyModel { type_url: c, ..m }),
                    }
                } else if f == 2 {
                    match parse_bytes_field(s, n, limit, w) {
                        Err(e) => Err(e),
                        Ok((b, k)) => merge_any(s, k, limit, AnyModel { value: b, ..m }),
                    }
                } else {
                    match unknown_or_skip(s, n, limit, f, w, m.unknown) {
                        Err(e) => Err(e),
                        Ok((u, k)) => merge_any(s, k, limit, AnyModel { unknown: u, ..m }),
                    }
                }
            },
        }
    }
}

/// Reading an `Any` stops after where it starts and by the end of reading.
pub proof fn lemma_merge_any_bounds(s: Seq<u8>, pos: int, limit: int, m: AnyModel)
    requires
        pos <= read_end(s, limit),
    ensures
        merge_any(s, pos, limit, m) matches Ok((r, n)) ==> n == read_end(s, limit),
    decreases s.len() - pos,
{
    let end = read_end(s, limit);
    if pos < end {
        lemma_varint_from_bounds(s, pos, end, 0);
        match parse_tag(s, pos, end) {
            Ok((f, w, n)) => {
                lemma_field_bounds(s, n, limit, w, f, m.unknown);
                if f == 1 {
                    if let Ok((c, k)) = parse_string_field(s, n, limit, w) {
                        lemma_merge_any_bounds(s, k, limit, AnyModel { type_url: c, ..m });
                    }
                } else if f == 2 {
                    if let Ok((b, k)) = parse_bytes_field(s, n, limit, w) {
                        lemma_merge_any_bounds(s, k, limit, AnyModel { value: b, ..m });
                    }
                } else {
                    if let Ok((u, k)) = unknown_or_skip(s, n, limit, f, w, m.unknown) {
                        lemma_merge_any_bounds(s, k, limit, AnyModel { unknown: u, ..m });
                    }
                }
            },
            Err(e) => {},
        }
    }
}

/// The base account counterpart of [`merge_any`]; its public key is read
/// with [`merge_any`] up to the key's own limit.
#[verifier::opaque]
pub open spec fn merge_base_account(s: Seq<u8>, pos: int, limit: int, m: BaseAccountModel) -> Result<(BaseAccountModel, int), WireError>
    decreases s.len() - pos,
{
    let end = read_end(s, limit);
    if pos >= end {
        Ok((m, pos))
    } else {
        match parse_tag(s, pos, end) {
            Err(e) => Err(e),
            Ok((f, w, n)) => {
                proof {
                    lemma_varint_from_bounds(s, pos, end, 0);
                    lemma_field_bounds(s, n, limit, w, f, m.unknown);
                }
                if f == 1 {
                    match parse_string_field(s, n, limit, w) {
                        Err(e) => Err(e),
                        Ok((c, k)) => merge_base_account(s, k, limit, BaseAccountModel { address: c, ..m }),
                    }
                } else if f == 2 {
                    match parse_nested(s, n, limit, w) {
                        Err(e) => Err(e),
                        Ok((start, sub)) => {
                            let old_key = match m.pub_key {
                                Some(k) => k,
                                None => default_any(),
                            };
                            match merge_any(s, start, sub, old_key) {
                                Err(e) => Err(e),
                                Ok((key, k)) => {
                                    proof {
                                        lemma_merge_any_bounds(s, start, sub, old_key);
                                    }
                                    merge_base_account(s, k, limit, BaseAccountModel { pub_key: Some(key), ..m })
                                },
                            }
                        },
                    }
                } else if f == 3 {
                    match parse_uint64_field(s, n, limit, w) {
                        Err(e) => Err(e),
                        Ok((v, k)) => merge_base_account(s, k, limit, BaseAccountModel { account_number: v, ..m }),
                    }
                } else if f == 4 {
                    match parse_uint64_field(s, n, limit, w) {
                        Err(e) => Err(e),
                        Ok((v, k)) => merge_base_account(s, k, limit, BaseAccountModel { sequence: v, ..m }),
                    }
                } else {
                    match unknown_or_skip(s, n, limit, f, w, m.unknown) {
                        Err(e) => Err(e),
                        Ok((u, k)) => merge_base_account(s, k, limit, BaseAccountModel { unknown: u, ..m }),
                    }
                }
            },
        }
    }
}

/// Reading a base account stops after where it starts and by the end of
/// reading.
pub proof fn lemma_merge_base_account_bounds(s: Seq<u8>, pos: int, limit: int, m: BaseAccountModel)
    requires
        pos <= read_end(s, limit),
    ensures
        merge_base_account(s, pos, limit, m) matches Ok((r, n)) ==> n == read_end(s, limit),
    decreases s.len() - pos,
{
    reveal(merge_base_account);
    let end = read_end(s, limit);
    if pos < end {
        lemma_varint_from_bounds(s, pos, end, 0);
        match parse_tag(s, pos, end) {
            Ok((f, w, n)) => {
                lemma_field_bounds(s, n, limit, w, f, m.unknown);
                if f == 1 {
                    if let Ok((c, k)) = parse_string_field(s, n, limit, w) {
                        lemma_merge_base_account_bounds(s, k, limit, BaseAccountModel { address: c, ..m });
                    }
                } else if f == 2 {
                    if let Ok((start, sub)) = parse_nested(s, n, limit, w) {
                        let old_key = match m.pub_key {
                            Some(k) => k,
                            None => default_any(),
                        };
                        lemma_merge_any_bounds(s, start, sub, old_key);
                        if let Ok((key, k)) = merge_any(s, start, sub, old_key) {
                            lemma_merge_base_account_bounds(s, k, limit, BaseAccountModel { pub_key: Some(key), ..m });
                        }
                    }
                } else if f == 3 {
                    if let Ok((v, k)) = parse_uint64_field(s, n, limit, w) {
                        lemma_merge_base_account_bounds(s, k, limit, BaseAccountModel { account_number: v, ..m });
                    }
                } else if f == 4 {
                    if let Ok((v, k)) = parse_uint64_field(s, n, limit, w) {
                        lemma_merge_base_account_bounds(s, k, limit, BaseAccountModel { sequence: v, ..m });
                    }
                } else {
                    if let Ok((u, k)) = unknown_or_skip(s, n, limit, f, w, m.unknown) {
                        lemma_merge_base_account_bounds(s, k, limit, BaseAccountModel { unknown: u, ..m });
                    }
                }
            },
            Err(e) => {},
        }
    }
}

/// The account message counterpart of [`merge_any`]; its base account is
/// read with [`merge_base_account`] up to the base account's own limit.
#[verifier::opaque]
pub open spec fn merge_eth_account(s: Seq<u8>, pos: int, limit: int, m: EthAccountModel) -> Result<(EthAccountModel, int), WireError>
    decreases s.len() - pos,
{
    let end = read_end(s, limit);
    if pos >= end {
        Ok((m, pos))
    } else {
        match parse_tag(s, pos, end) {
            Err(e) => Err(e),
            Ok((f, w, n)) => {
                proof {
                    lemma_varint_from_bounds(s, pos, end, 0);
                    lemma_field_bounds(s, n, limit, w, f, m.unknown);
                }
                if f == 1 {
                    match parse_nested(s, n, limit, w) {
                        Err(e) => Err(e),
                        Ok((start, sub)) => {
                            let old_base = match m.base_account {
                                Some(b) => b,
                                None => default_base_account(),
                            };
                            match merge_base_account(s, start, sub, old_base) {
                                Err(e) => Err(e),
                                Ok((base, k)) => {
                                    proof {
                                        lemma_merge_base_account_bounds(s, start, sub, old_base);
                                    }
                                    merge_eth_account(s, k, limit, EthAccountModel { base_account: Some(base), ..m })
                                },
                            }
                        },
                    }
                } else if f == 2 {
                    match parse_bytes_field(s, n, limit, w) {
                        Err(e) => Err(e),
                        Ok((b, k)) => merge_eth_account(s, k, limit, EthAccountModel { code_hash: b, ..m }),
                    }
                } else {
                    match unknown_or_skip(s, n, limit, f, w, m.unknown) {
                        Err(e) => Err(e),
                        Ok((u, k)) => merge_eth_account(s, k, limit, EthAccountModel { unknown: u, ..m }),
                    }
                }
            },
        }
    }
}

// ---------------------------------------------------------------------------
// Construction and field access.
impl ProtoAny {
    /// The default `Any`: empty type URL and value.
    pub fn new() -> (r: ProtoAny)
        ensures
            r@ == default_any(),
    {
        ProtoAny { type_url: String::new(), value: Vec::new(), unknown_fields: UnknownFields::new() }
    }

    /// A copy with the same content.
    pub fn copy(&self) -> (r: ProtoAny)
        ensures
            r@ == self@,
    {
        let value = self.value.clone();
        assert(value@ =~= self.value@);
        ProtoAny { type_url: self.type_url.clone(), value, unknown_fields: self.unknown_fields.copy() }
    }
}

impl BaseAccount {
    /// The default message: every field empty or zero.
    pub open spec fn is_default(self) -> bool {
        self@ == default_base_account()
    }

    /// A copy with the same content.
    pub fn copy(&self) -> (r: BaseAccount)
        ensures
            r@ == self@,
    {
        let pub_key = match &self.pub_key {
            Some(k) => Some(k.copy()),
            None => None,
        };
        BaseAccount {
            address: self.address.clone(),
            pub_key,
            account_number: self.account_number,
            sequence: self.sequence,
            unknown_fields: self.unknown_fields.copy(),
        }
    }

    /// A default base account.
    pub fn new() -> (r: BaseAccount)
        ensures
            r.is_default(),
    {
        BaseAccount {
            address: String::new(),
            pub_key: None,
            account_number: 0,
            sequence: 0,
            unknown_fields: UnknownFields::new(),
        }
    }
}

impl EthAccount {
    /// A message with no base account and an empty code hash.
    pub fn new() -> (r: EthAccount)
        ensures
            r@ == empty_eth_account(),
    {
        EthAccount { base_account: None, code_hash: Vec::new(), unknown_fields: UnknownFields::new() }
    }

    /// The base account, or a default one where none is set.
    pub fn get_base_account(&self) -> (r: BaseAccount)
        ensures
            r@ == (match self.base_account {
                Some(b) => b@,
                None => default_base_account(),
            }),
    {
        match &self.base_account {
            Some(b) => b.copy(),
            None => BaseAccount::new(),
        }
    }

    /// Unsets the base account.
    pub fn clear_base_account(&mut self)
        ensures
            final(self)@ == (EthAccountModel { base_account: None, ..old(self)@ }),
    {
        self.base_account = None;
    }

    /// Whether a base account is set.
    pub fn has_base_account(&self) -> (r: bool)
        ensures
            r == self.base_account is Some,
    {
        self.base_account.is_some()
    }

    /// Sets the base account.
    pub fn set_base_account(&mut self, v: BaseAccount)
        ensures
            final(self).base_account == Some(v),
            final(self)@ == (EthAccountModel { base_account: Some(v@), ..old(self)@ }),
    {
        self.base_account = Some(v);
    }

    /// The base account for modification, set to a default one first where
    /// none is set.
    pub fn mut_base_account(&mut self) -> (r: &mut BaseAccount)
        ensures
            old(self).base_account matches Some(b) ==> *r == b,
            old(self).base_account is None ==> r.is_default(),
            final(self).base_account == Some(*final(r)),
            final(self).code_hash == old(self).code_hash,
            final(self).unknown_fields == old(self).unknown_fields,
    {
        self.base_account.get_or_insert(BaseAccount::new())
    }

    /// Takes the base account out, leaving none; a default one where none
    /// was set.
    pub fn take_base_account(&mut self) -> (r: BaseAccount)
        ensures
            old(self).base_account matches Some(b) ==> r == b,
            old(self).base_account is None ==> r.is_default(),
            final(self)@ == (EthAccountModel { base_account: None, ..old(self)@ }),
    {
        match self.base_account.take() {
            Some(b) => b,
            None => BaseAccount::new(),
        }
    }

    /// The code hash.
    pub fn get_code_hash(&self) -> (r: &[u8])
        ensures
            r@ == self.code_hash@,
    {
        self.code_hash.as_slice()
    }

    /// Empties the code hash.
    pub fn clear_code_hash(&mut self)
        ensures
            final(self)@ == (EthAccountModel { code_hash: Seq::empty(), ..old(self)@ }),
    {
        self.code_hash.clear();
    }

    /// Sets the code hash.
    pub fn set_code_hash(&mut self, v: Vec<u8>)
        ensures
            final(self)@ == (EthAccountModel { code_hash: v@, ..old(self)@ }),
    {
        self.code_hash = v;
    }

    /// The code hash for modification.
    pub fn mut_code_hash(&mut self) -> (r: &mut Vec<u8>)
        ensures
            *r == old(self).code_hash,
            final(self).code_hash == *final(r),
            final(self).base_account == old(self).base_account,
            final(self).unknown_fields == old(self).unknown_fields,
    {
        &mut self.code_hash
    }

    /// Takes the code hash out, leaving it empty.
    pub fn take_code_hash(&mut self) -> (r: Vec<u8>)
        ensures
            r == old(self).code_hash,
            final(self)@ == (EthAccountModel { code_hash: Seq::empty(), ..old(self)@ }),
    {
        let mut taken: Vec<u8> = Vec::new();
        std::mem::swap(&mut taken, &mut self.code_hash);
        taken
    }

    /// Every message of this type is initialized: no field of it or of the
    /// messages it holds is required.
    pub fn is_initialized(&self) -> (r: bool)
        ensures
            r,
    {
        true
    }

    /// Empties every field, the undeclared ones too.
    pub fn clear(&mut self)
        ensures
            final(self)@ == empty_eth_account(),
    {
        self.base_account = None;
        self.code_hash.clear();
        self.unknown_fields = UnknownFields::new();
    }
}

// ---------------------------------------------------------------------------
// Writing.
/// The size of a string field.
fn string_field_size(field: u32, c: &String) -> (r: u64)
    requires
        0 < field < 0x2000_0000,
        string_field(field as nat, c@).len() <= 0xffff_ffff,
    ensures
        r == string_field(field as nat, c@).len(),
{
    if c.as_str().is_empty() {
        0
    } else {
        let b = c.as_str().as_bytes();
        len_field_size(field, b.len())
    }
}

/// Appends a string field.
fn push_string_field(out: &mut Vec<u8>, field: u32, c: &String)
    requires
        0 < field < 0x2000_0000,
        string_field(field as nat, c@).len() <= 0xffff_ffff,
    ensures
        final(out)@ == old(out)@ + string_field(field as nat, c@),
{
    if c.as_str().is_empty() {
        assert(old(out)@ + string_field(field as nat, c@) =~= old(out)@);
    } else {
        push_len_field(out, field, c.as_str().as_bytes());
    }
}

/// The size of a bytes field.
fn bytes_field_size(field: u32, b: &Vec<u8>) -> (r: u64)
    requires
        0 < field < 0x2000_0000,
        bytes_field(field as nat, b@).len() <= 0xffff_ffff,
    ensures
        r == bytes_field(field as nat, b@).len(),
{
    if b.len() == 0 {
        0
    } else {
        len_field_size(field, b.len())
    }
}

/// Appends a bytes field.
fn push_bytes_field(out: &mut Vec<u8>, field: u32, b: &Vec<u8>)
    requires
        0 < field < 0x2000_0000,
        bytes_field(field as nat, b@).len() <= 0xffff_ffff,
    ensures
        final(out)@ == old(out)@ + bytes_field(field as nat, b@),
{
    if b.len() == 0 {
        assert(old(out)@ + bytes_field(field as nat, b@) =~= old(out)@);
    } else {
        push_len_field(out, field, b.as_slice());
    }
}

/// The size of a `uint64` field.
fn uint64_field_size(field: u32, v: u64) -> (r: u64)
    requires
        0 < field < 0x2000_0000,
    ensures
        r == uint64_field(field as nat, v).len(),
{
    if v == 0 {
        0
    } else {
        varint_size((field as u64) * 8) as u64 + varint_size(v) as u64
    }
}

/// Appends a `uint64` field.
fn push_uint64_field(out: &mut Vec<u8>, field: u32, v: u64)
    requires
        0 < field < 0x2000_0000,
    ensures
        final(out)@ == old(out)@ + uint64_field(field as nat, v),
{
    if v == 0 {
        assert(old(out)@ + uint64_field(field as nat, v) =~= old(out)@);
    } else {
        let ghost before = out@;
        push_tag(out, field, WIRE_VARINT);
        push_varint(out, v);
        assert(out@ =~= before + uint64_field(field as nat, v));
    }
}

impl ProtoAny {
    /// The length of the encoding.
    pub fn compute_size(&self) -> (r: u32)
        requires
            any_wf(self@),
        ensures
            r == any_bytes(self@).len(),
    {
        let a = string_field_size(1, &self.type_url);
        let b = bytes_field_size(2, &self.value);
        let c = unknown_fields_size(&self.unknown_fields);
        (a + b + c as u64) as u32
    }

    /// Appends the encoding.
    pub fn write_to_with_cached_sizes(&self, out: &mut Vec<u8>)
        requires
            any_wf(self@),
        ensures
            final(out)@ == old(out)@ + any_bytes(self@),
    {
        push_string_field(out, 1, &self.type_url);
        push_bytes_field(out, 2, &self.value);
        push_unknown_fields(out, &self.unknown_fields);
        assert(out@ =~= old(out)@ + any_bytes(self@));
    }
}

impl BaseAccount {
    /// The length of the encoding.
    pub fn compute_size(&self) -> (r: u32)
        requires
            base_account_wf(self@),
        ensures
            r == base_account_bytes(self@).len(),
    {
        let a = string_field_size(1, &self.address);
        let k: u64 = match &self.pub_key {
            Some(key) => {
                let inner = key.compute_size();
                len_field_size(2, inner as usize)
            },
            None => 0,
        };
        let n = uint64_field_size(3, self.account_number);
        let q = uint64_field_size(4, self.sequence);
        let u = unknown_fields_size(&self.unknown_fields);
        (a + k + n + q + u as u64) as u32
    }

    /// Appends the encoding.
    #[verifier::rlimit(30)]
    pub fn write_to_with_cached_sizes(&self, out: &mut Vec<u8>)
        requires
            base_account_wf(self@),
        ensures
            final(out)@ == old(out)@ + base_account_bytes(self@),
    {
        push_string_field(out, 1, &self.address);
        let ghost mid = out@;
        match &self.pub_key {
            Some(key) => {
                push_tag(out, 2, WIRE_LEN);
                push_varint(out, key.compute_size() as u64);
                key.write_to_with_cached_sizes(out);
                assert(out@ =~= mid + len_field(2, any_bytes(key@)));
            },
            None => {},
        }
        push_uint64_field(out, 3, self.account_number);
        push_uint64_field(out, 4, self.sequence);
        push_unknown_fields(out, &self.unknown_fields);
        assert(out@ =~= old(out)@ + base_account_bytes(self@));
    }
}

impl EthAccount {
    /// The length of the encoding.
    pub fn compute_size(&self) -> (r: u32)
        requires
            eth_account_wf(self@),
        ensures
            r == eth_account_bytes(self@).len(),
    {
        let b: u64 = match &self.base_account {
            Some(base) => {
                let inner = base.compute_size();
                len_field_size(1, inner as usize)
            },
            None => 0,
        };
        let h = bytes_field_size(2, &self.code_hash);
        let u = unknown_fields_size(&self.unknown_fields);
        (b + h + u as u64) as u32
    }

    /// Appends the encoding.
    pub fn write_to_with_cached_sizes(&self, out: &mut Vec<u8>)
        requires
            eth_account_wf(self@),
        ensures
            final(out)@ == old(out)@ + eth_account_bytes(self@),
    {
        match &self.base_account {
            Some(base) => {
                push_tag(out, 1, WIRE_LEN);
                push_varint(out, base.compute_size() as u64);
                base.write_to_with_cached_sizes(out);
            },
            None => {},
        }
        push_bytes_field(out, 2, &self.code_hash);
        push_unknown_fields(out, &self.unknown_fields);
        assert(out@ =~= old(out)@ + eth_account_bytes(self@));
    }
}

// ---------------------------------------------------------------------------
// Reading, executable.
/// Each message's undeclared field numbers occur once.
pub open spec fn any_unique(m: AnyModel) -> bool {
    numbers_unique(m.unknown)
}

/// [`any_unique`] for a base account and its key.
pub open spec fn base_account_unique(m: BaseAccountModel) -> bool {
    numbers_unique(m.unknown) && (m.pub_key matches Some(k) ==> any_unique(k))
}

/// [`any_unique`] for an account message and what it holds.
pub open spec fn eth_account_unique(m: EthAccountModel) -> bool {
    numbers_unique(m.unknown) && (m.base_account matches Some(b) ==> base_account_unique(b))
}

/// `String::from_utf8`: the bytes as a string, where they are UTF-8.
#[verifier::external_body]
pub(crate) fn string_from_utf8(bytes: Vec<u8>) -> (r: Option<String>)
    ensures
        r is Some <==> valid_utf8(bytes@),
        r matches Some(c) ==> c@ == decode_utf8(bytes@),
{
    match String::from_utf8(bytes) {
        Ok(c) => Some(c),
        Err(_) => None,
    }
}

/// Reads a string field at `pos`.
fn read_string_field(s: &[u8], pos: usize, limit: u64, wire_type: u32) -> (r: Result<(String, usize), WireError>)
    requires
        pos <= read_end(s@, limit as int),
    ensures
        match r {
            Ok((c, n)) => parse_string_field(s@, pos as int, limit as int, wire_type) == Ok::<(Seq<char>, int), WireError>((c@, n as int)),
            Err(e) => parse_string_field(s@, pos as int, limit as int, wire_type) == Err::<(Seq<char>, int), WireError>(e),
        },
{
    if wire_type != WIRE_LEN {
        return Err(WireError::UnexpectedWireType(wire_type));
    }
    let (b, n) = read_len_bytes(s, pos, limit)?;
    match string_from_utf8(b) {
        Some(c) => Ok((c, n)),
        None => Err(WireError::Utf8Error),
    }
}

/// Reads a bytes field at `pos`.
fn read_bytes_field(s: &[u8], pos: usize, limit: u64, wire_type: u32) -> (r: Result<(Vec<u8>, usize), WireError>)
    requires
        pos <= read_end(s@, limit as int),
    ensures
        match r {
            Ok((b, n)) => parse_bytes_field(s@, pos as int, limit as int, wire_type) == Ok::<(Seq<u8>, int), WireError>((b@, n as int)),
            Err(e) => parse_bytes_field(s@, pos as int, limit as int, wire_type) == Err::<(Seq<u8>, int), WireError>(e),
        },
{
    if wire_type != WIRE_LEN {
        return Err(WireError::UnexpectedWireType(wire_type));
    }
    read_len_bytes(s, pos, limit)
}

/// Reads a `uint64` field at `pos`.
fn read_uint64_field(s: &[u8], pos: usize, limit: u64, wire_type: u32) -> (r: Result<(u64, usize), WireError>)
    requires
        pos <= read_end(s@, limit as int),
    ensures
        match r {
            Ok((v, n)) => parse_uint64_field(s@, pos as int, limit as int, wire_type) == Ok::<(u64, int), WireError>((v, n as int)),
            Err(e) => parse_uint64_field(s@, pos as int, limit as int, wire_type) == Err::<(u64, int), WireError>(e),
        },
{
    if wire_type != WIRE_VARINT {
        return Err(WireError::UnexpectedWireType(wire_type));
    }
    let end = if (s.len() as u64) <= limit {
        s.len()
    } else {
        limit as usize
    };
    read_varint(s, pos, end)
}

/// Reads the length of a nested message at `pos`: where it starts and its
/// limit.
fn read_nested(s: &[u8], pos: usize, limit: u64, wire_type: u32) -> (r: Result<(usize, u64), WireError>)
    requires
        pos <= read_end(s@, limit as int),
    ensures
        match r {
            Ok((n, l)) => parse_nested(s@, pos as int, limit as int, wire_type) == Ok::<(int, int), WireError>((n as int, l as int)),
            Err(e) => parse_nested(s@, pos as int, limit as int, wire_type) == Err::<(int, int), WireError>(e),
        },
{
    if wire_type != WIRE_LEN {
        return Err(WireError::UnexpectedWireType(wire_type));
    }
    let end = if (s.len() as u64) <= limit {
        s.len()
    } else {
        limit as usize
    };
    let (len, n) = read_varint(s, pos, end)?;
    proof {
        lemma_varint_from_bounds(s@, pos as int, end as int, 0);
    }
    if len > limit - (n as u64) {
        return Err(WireError::Other);
    }
    Ok((n, n as u64 + len))
}

impl ProtoAny {
    /// Merges the fields encoded from `pos` up to `limit` into the message;
    /// gives where reading stopped.
    pub fn merge_at(&mut self, s: &[u8], pos: usize, limit: u64) -> (r: Result<usize, WireError>)
        requires
            pos <= read_end(s@, limit as int),
            any_unique(old(self)@),
        ensures
            any_unique(final(self)@),
            match r {
                Ok(n) => merge_any(s@, pos as int, limit as int, old(self)@) == Ok::<(AnyModel, int), WireError>((final(self)@, n as int)),
                Err(e) => merge_any(s@, pos as int, limit as int, old(self)@) == Err::<(AnyModel, int), WireError>(e),
            },
    {
        let end: usize = if (s.len() as u64) <= limit {
            s.len()
        } else {
            limit as usize
        };
        let mut p: usize = pos;
        loop
            invariant
                pos <= p <= end,
                end == read_end(s@, limit as int),
                any_unique(self@),
                merge_any(s@, pos as int, limit as int, old(self)@) == merge_any(s@, p as int, limit as int, self@),
            decreases end - p,
        {
            if p >= end {
                return Ok(p);
            }
            let (f, w, n) = read_tag(s, p, end)?;
            proof {
                lemma_varint_from_bounds(s@, p as int, end as int, 0);
                lemma_field_bounds(s@, n as int, limit as int, w, f, self@.unknown);
            }
            if f == 1 {
                let (c, k) = read_string_field(s, n, limit, w)?;
                self.type_url = c;
                p = k;
            } else if f == 2 {
                let (b, k) = read_bytes_field(s, n, limit, w)?;
                self.value = b;
                p = k;
            } else {
                let k = read_unknown_or_skip_group(s, n, limit, f, w, &mut self.unknown_fields)?;
                p = k;
            }
        }
    }
}

impl BaseAccount {
    /// Merges the fields encoded from `pos` up to `limit` into the message;
    /// gives where reading stopped.
    pub fn merge_at(&mut self, s: &[u8], pos: usize, limit: u64) -> (r: Result<usize, WireError>)
        requires
            pos <= read_end(s@, limit as int),
            base_account_unique(old(self)@),
        ensures
            base_account_unique(final(self)@),
            match r {
                Ok(n) => merge_base_account(s@, pos as int, limit as int, old(self)@) == Ok::<(BaseAccountModel, int), WireError>(
                    (final(self)@, n as int),
                ),
                Err(e) => merge_base_account(s@, pos as int, limit as int, old(self)@) == Err::<(BaseAccountModel, int), WireError>(
                    e,
                ),
            },
    {
        let end: usize = if (s.len() as u64) <= limit {
            s.len()
        } else {
            limit as usize
        };
        let mut p: usize = pos;
        loop
            invariant
                pos <= p <= end,
                end == read_end(s@, limit as int),
                base_account_unique(self@),
                merge_base_account(s@, pos as int, limit as int, old(self)@) == merge_base_account(
                    s@,
                    p as int,
                    limit as int,
                    self@,
                ),
            decreases end - p,
        {
            proof {
                reveal(merge_base_account);
            }
            if p >= end {
                return Ok(p);
            }
            let (f, w, n) = read_tag(s, p, end)?;
            proof {
                lemma_varint_from_bounds(s@, p as int, end as int, 0);
                lemma_field_bounds(s@, n as int, limit as int, w, f, self@.unknown);
            }
            if f == 1 {
                let (c, k) = read_string_field(s, n, limit, w)?;
                self.address = c;
                p = k;
            } else if f == 2 {
                let (start, sub) = read_nested(s, n, limit, w)?;
                let mut key = match self.pub_key.take() {
                    Some(key) => key,
                    None => ProtoAny::new(),
                };
                let ghost old_key = key@;
                let res = key.merge_at(s, start, sub);
                self.pub_key = Some(key);
                let k = res?;
                proof {
                    lemma_merge_any_bounds(s@, start as int, sub as int, old_key);
                }
                p = k;
            } else if f == 3 {
                let (v, k) = read_uint64_field(s, n, limit, w)?;
                self.account_number = v;
                p = k;
            } else if f == 4 {
                let (v, k) = read_uint64_field(s, n, limit, w)?;
                self.sequence = v;
                p = k;
            } else {
                let k = read_unknown_or_skip_group(s, n, limit, f, w, &mut self.unknown_fields)?;
                p = k;
            }
        }
    }
}

impl EthAccount {
    /// Merges the fields encoded from `pos` up to `limit` into the message;
    /// gives where reading stopped.
    pub fn merge_at(&mut self, s: &[u8], pos: usize, limit: u64) -> (r: Result<usize, WireError>)
        requires
            pos <= read_end(s@, limit as int),
            eth_account_unique(old(self)@),
        ensures
            eth_account_unique(final(self)@),
            match r {
                Ok(n) => merge_eth_account(s@, pos as int, limit as int, old(self)@) == Ok::<(EthAccountModel, int), WireError>(
                    (final(self)@, n as int),
                ),
                Err(e) => merge_eth_account(s@, pos as int, limit as int, old(self)@) == Err::<(EthAccountModel, int), WireError>(
                    e,
                ),
            },
    {
        let end: usize = if (s.len() as u64) <= limit {
            s.len()
        } else {
            limit as usize
        };
        let mut p: usize = pos;
        loop
            invariant
                pos <= p <= end,
                end == read_end(s@, limit as int),
                eth_account_unique(self@),
                merge_eth_account(s@, pos as int, limit as int, old(self)@) == merge_eth_account(
                    s@,
                    p as int,
                    limit as int,
                    self@,
                ),
            decreases end - p,
        {
            proof {
                reveal(merge_eth_account);
            }
            if p >= end {
                return Ok(p);
            }
            let (f, w, n) = read_tag(s, p, end)?;
            proof {
                lemma_varint_from_bounds(s@, p as int, end as int, 0);
                lemma_field_bounds(s@, n as int, limit as int, w, f, self@.unknown);
            }
            if f == 1 {
                let (start, sub) = read_nested(s, n, limit, w)?;
                let mut base = match self.base_account.take() {
                    Some(base) => base,
                    None => BaseAccount::new(),
                };
                let ghost old_base = base@;
                let res = base.merge_at(s, start, sub);
                self.base_account = Some(base);
                let k = res?;
                proof {
                    lemma_merge_base_account_bounds(s@, start as int, sub as int, old_base);
                }
                p = k;
            } else if f == 2 {
                let (b, k) = read_bytes_field(s, n, limit, w)?;
                self.code_hash = b;
                p = k;
            } else {
                let k = read_unknown_or_skip_group(s, n, limit, f, w, &mut self.unknown_fields)?;
                p = k;
            }
        }
    }

    /// Merges an encoded message into this one: where reading from `input`
    /// succeeds, the message is the merge of the two; where it fails, what
    /// the message holds is not stated.
    pub fn merge_from(&mut self, input: &[u8]) -> (r: Result<(), WireError>)
        requires
            eth_account_unique(old(self)@),
        ensures
            eth_account_unique(final(self)@),
            match r {
                Ok(()) => merge_eth_account(input@, 0, NO_LIMIT as int, old(self)@) == Ok::<(EthAccountModel, int), WireError>(
                    (final(self)@, input@.len() as int),
                ),
                Err(e) => merge_eth_account(input@, 0, NO_LIMIT as int, old(self)@) is Err && merge_eth_account(
                    input@,
                    0,
                    NO_LIMIT as int,
                    old(self)@,
                )->Err_0 == e,
            },
    {
        let total: usize = input.len();
        assert(read_end(input@, NO_LIMIT as int) == input@.len());
        let n = self.merge_at(input, 0, NO_LIMIT)?;
        proof {
            lemma_merge_eth_account_bounds(input@, 0, NO_LIMIT as int, old(self)@);
        }
        Ok(())
    }
}

/// Reading an account message stops by the end of reading.
pub proof fn lemma_merge_eth_account_bounds(s: Seq<u8>, pos: int, limit: int, m: EthAccountModel)
    requires
        pos <= read_end(s, limit),
    ensures
        merge_eth_account(s, pos, limit, m) matches Ok((r, n)) ==> n == read_end(s, limit),
    decreases s.len() - pos,
{
    reveal(merge_eth_account);
    let end = read_end(s, limit);
    if pos < end {
        lemma_varint_from_bounds(s, pos, end, 0);
        match parse_tag(s, pos, end) {
            Ok((f, w, n)) => {
                lemma_field_bounds(s, n, limit, w, f, m.unknown);
                if f == 1 {
                    if let Ok((start, sub)) = parse_nested(s, n, limit, w) {
                        let old_base = match m.base_account {
                            Some(b) => b,
                            None => default_base_account(),
                        };
                        lemma_merge_base_account_bounds(s, start, sub, old_base);
                        if let Ok((base, k)) = merge_base_account(s, start, sub, old_base) {
                            lemma_merge_eth_account_bounds(s, k, limit, EthAccountModel { base_account: Some(base), ..m });
                        }
                    }
                } else if f == 2 {
                    if let Ok((b, k)) = parse_bytes_field(s, n, limit, w) {
                        lemma_merge_eth_account_bounds(s, k, limit, EthAccountModel { code_hash: b, ..m });
                    }
                } else {
                    if let Ok((u, k)) = unknown_or_skip(s, n, limit, f, w, m.unknown) {
                        lemma_merge_eth_account_bounds(s, k, limit, EthAccountModel { unknown: u, ..m });
                    }
                }
            },
            Err(e) => {},
        }
    }
}

// ---------------------------------------------------------------------------
// What an encoding reads back as.
/// A length-delimited field reads back as its bytes.
proof fn lemma_read_len_field(s: Seq<u8>, p: int, limit: int, field: u32, b: Seq<u8>)
    requires
        0 < field < 0x2000_0000,
        b.len() < 0x1_0000_0000,
        bytes_at(s, p, len_field(field as nat, b)),
        p + len_field(field as nat, b).len() <= read_end(s, limit),
    ensures
        parse_tag(s, p, read_end(s, limit)) == Ok::<(u32, u32, int), WireError>(
            (field, WIRE_LEN, p + tag(field as nat, 2).len()),
        ),
        parse_len_bytes(s, p + tag(field as nat, 2).len(), limit) == Ok::<(Seq<u8>, int), WireError>(
            (b, p + len_field(field as nat, b).len()),
        ),
        parse_nested(s, p + tag(field as nat, 2).len(), limit, WIRE_LEN) == Ok::<(int, int), WireError>(
            (p + tag(field as nat, 2).len() + varint(b.len()).len(), p + len_field(field as nat, b).len()),
        ),
        bytes_at(s, p + tag(field as nat, 2).len() + varint(b.len()).len(), b),
{
    let end = read_end(s, limit);
    let t = tag(field as nat, 2);
    let lv = varint(b.len());
    assert(len_field(field as nat, b) =~= t + (lv + b));
    lemma_bytes_at_split(s, p, t, lv + b);
    lemma_parse_tag_encoding(s, p, end, field, WIRE_LEN);
    lemma_bytes_at_split(s, p + t.len(), lv, b);
    lemma_parse_varint_encoding(s, p + t.len(), end, b.len() as u64);
}

/// A `uint64` field reads back as its value.
proof fn lemma_read_uint64_field(s: Seq<u8>, p: int, limit: int, field: u32, v: u64)
    requires
        0 < field < 0x2000_0000,
        v != 0,
        bytes_at(s, p, uint64_field(field as nat, v)),
        p + uint64_field(field as nat, v).len() <= read_end(s, limit),
    ensures
        parse_tag(s, p, read_end(s, limit)) == Ok::<(u32, u32, int), WireError>(
            (field, WIRE_VARINT, p + tag(field as nat, 0).len()),
        ),
        parse_uint64_field(s, p + tag(field as nat, 0).len(), limit, WIRE_VARINT) == Ok::<(u64, int), WireError>(
            (v, p + uint64_field(field as nat, v).len()),
        ),
{
    let end = read_end(s, limit);
    let t = tag(field as nat, 0);
    lemma_bytes_at_split(s, p, t, varint(v as nat));
    lemma_parse_tag_encoding(s, p, end, field, WIRE_VARINT);
    lemma_parse_varint_encoding(s, p + t.len(), end, v);
}

/// Undeclared values read back into an `Any` and are added to its
/// undeclared fields.
proof fn lemma_merge_any_items(s: Seq<u8>, p: int, limit: int, m: AnyModel, items: Seq<(u32, UnknownValueModel)>)
    requires
        bytes_at(s, p, flat(items, unknown_item_fn())),
        p + flat(items, unknown_item_fn()).len() <= read_end(s, limit),
        forall|k: int| 0 <= k < items.len() ==> item_wf(#[trigger] items[k]) && items[k].0 > 2,
    ensures
        merge_any(s, p, limit, m) == merge_any(
            s,
            p + flat(items, unknown_item_fn()).len(),
            limit,
            AnyModel { unknown: add_all(m.unknown, items), ..m },
        ),
    decreases items.len(),
{
    if items.len() == 0 {
        assert(m == AnyModel { unknown: add_all(m.unknown, items), ..m });
    } else {
        let first = items[0];
        let rest = items.subrange(1, items.len() as int);
        lemma_items_first(items, m.unknown);
        lemma_bytes_at_split(s, p, unknown_item(first), flat(rest, unknown_item_fn()));
        lemma_read_unknown_item(s, p, limit, first, m.unknown);
        let q = p + unknown_item(first).len();
        let m1 = AnyModel { unknown: add_unknown(m.unknown, first.0, first.1), ..m };
        assert(merge_any(s, p, limit, m) == merge_any(s, q, limit, m1));
        assert forall|k: int| 0 <= k < rest.len() implies item_wf(#[trigger] rest[k]) && rest[k].0 > 2 by {
            assert(rest[k] == items[k + 1]);
        }
        lemma_merge_any_items(s, q, limit, m1, rest);
    }
}

/// An `Any` whose encoding reads back as itself: it can be written, and its
/// undeclared fields read back.
pub open spec fn any_readable(m: AnyModel) -> bool {
    any_wf(m) && unknown_readable(m.unknown, 2)
}

/// A type URL field reads back into an `Any`.
proof fn lemma_any_step_type_url(s: Seq<u8>, p: int, limit: int, m: AnyModel, c: Seq<char>)
    requires
        c.len() > 0,
        encode_utf8(c).len() < 0x1_0000_0000,
        bytes_at(s, p, string_field(1, c)),
        p + string_field(1, c).len() <= read_end(s, limit),
    ensures
        merge_any(s, p, limit, m) == merge_any(s, p + string_field(1, c).len(), limit, AnyModel { type_url: c, ..m }),
{
    lemma_read_len_field(s, p, limit, 1, encode_utf8(c));
}

/// A value field reads back into an `Any`.
proof fn lemma_any_step_value(s: Seq<u8>, p: int, limit: int, m: AnyModel, b: Seq<u8>)
    requires
        b.len() > 0,
        b.len() < 0x1_0000_0000,
        bytes_at(s, p, bytes_field(2, b)),
        p + bytes_field(2, b).len() <= read_end(s, limit),
    ensures
        merge_any(s, p, limit, m) == merge_any(s, p + bytes_field(2, b).len(), limit, AnyModel { value: b, ..m }),
{
    lemma_read_len_field(s, p, limit, 2, b);
}

/// The encoding of an `Any`, read into the default one, gives it back.
pub proof fn lemma_any_reads_back(s: Seq<u8>, p: int, limit: int, m: AnyModel)
    requires
        any_readable(m),
        bytes_at(s, p, any_bytes(m)),
        read_end(s, limit) == p + any_bytes(m).len(),
    ensures
        merge_any(s, p, limit, default_any()) == Ok::<(AnyModel, int), WireError>((m, p + any_bytes(m).len())),
{
    let a = string_field(1, m.type_url);
    let b = bytes_field(2, m.value);
    let u = unknown_bytes(m.unknown);
    lemma_bytes_at_split(s, p, a + b, u);
    lemma_bytes_at_split(s, p, a, b);
    let m1 = AnyModel { type_url: m.type_url, ..default_any() };
    if m.type_url.len() > 0 {
        lemma_any_step_type_url(s, p, limit, default_any(), m.type_url);
    } else {
        assert(m.type_url =~= Seq::<char>::empty());
    }
    let p1 = p + a.len();
    let m2 = AnyModel { value: m.value, ..m1 };
    if m.value.len() > 0 {
        lemma_any_step_value(s, p1, limit, m1, m.value);
    } else {
        assert(m.value =~= Seq::<u8>::empty());
    }
    let p2 = p1 + b.len();
    let items = unknown_items(m.unknown);
    lemma_unknown_bytes_items(m.unknown);
    lemma_unknown_items_wf(m.unknown, 2);
    lemma_merge_any_items(s, p2, limit, m2, items);
    lemma_add_all_unknown_items(m.unknown);
    assert(AnyModel { unknown: add_all(m2.unknown, items), ..m2 } == m);
}

/// Undeclared values read back into a base account and are added to its
/// undeclared fields.
proof fn lemma_merge_base_account_items(
    s: Seq<u8>,
    p: int,
    limit: int,
    m: BaseAccountModel,
    items: Seq<(u32, UnknownValueModel)>,
)
    requires
        bytes_at(s, p, flat(items, unknown_item_fn())),
        p + flat(items, unknown_item_fn()).len() <= read_end(s, limit),
        forall|k: int| 0 <= k < items.len() ==> item_wf(#[trigger] items[k]) && items[k].0 > 4,
    ensures
        merge_base_account(s, p, limit, m) == merge_base_account(
            s,
            p + flat(items, unknown_item_fn()).len(),
            limit,
            BaseAccountModel { unknown: add_all(m.unknown, items), ..m },
        ),
    decreases items.len(),
{
    reveal(merge_base_account);
    if items.len() == 0 {
        assert(m == BaseAccountModel { unknown: add_all(m.unknown, items), ..m });
    } else {
        let first = items[0];
        let rest = items.subrange(1, items.len() as int);
        lemma_items_first(items, m.unknown);
        lemma_bytes_at_split(s, p, unknown_item(first), flat(rest, unknown_item_fn()));
        lemma_read_unknown_item(s, p, limit, first, m.unknown);
        let q = p + unknown_item(first).len();
        let m1 = BaseAccountModel { unknown: add_unknown(m.unknown, first.0, first.1), ..m };
        assert(merge_base_account(s, p, limit, m) == merge_base_account(s, q, limit, m1));
        assert forall|k: int| 0 <= k < rest.len() implies item_wf(#[trigger] rest[k]) && rest[k].0 > 4 by {
            assert(rest[k] == items[k + 1]);
        }
        lemma_merge_base_account_items(s, q, limit, m1, rest);
    }
}

/// An address field reads back into a base account.
proof fn lemma_base_step_address(s: Seq<u8>, p: int, limit: int, m: BaseAccountModel, c: Seq<char>)
    requires
        c.len() > 0,
        encode_utf8(c).len() < 0x1_0000_0000,
        bytes_at(s, p, string_field(1, c)),
        p + string_field(1, c).len() <= read_end(s, limit),
    ensures
        merge_base_account(s, p, limit, m) == merge_base_account(
            s,
            p + string_field(1, c).len(),
            limit,
            BaseAccountModel { address: c, ..m },
        ),
{
    reveal(merge_base_account);
    lemma_read_len_field(s, p, limit, 1, encode_utf8(c));
}

/// A public key field reads back into a base account that has none.
proof fn lemma_base_step_pub_key(s: Seq<u8>, p: int, limit: int, m: BaseAccountModel, k: AnyModel)
    requires
        m.pub_key is None,
        any_readable(k),
        bytes_at(s, p, len_field(2, any_bytes(k))),
        p + len_field(2, any_bytes(k)).len() <= read_end(s, limit),
    ensures
        merge_base_account(s, p, limit, m) == merge_base_account(
            s,
            p + len_field(2, any_bytes(k)).len(),
            limit,
            BaseAccountModel { pub_key: Some(k), ..m },
        ),
{
    reveal(merge_base_account);
    let body = any_bytes(k);
    lemma_read_len_field(s, p, limit, 2, body);
    let start = p + tag(2, 2).len() + varint(body.len()).len();
    let sub = p + len_field(2, body).len();
    assert(read_end(s, sub) == start + body.len());
    lemma_any_reads_back(s, start, sub, k);
}

/// An account number field reads back into a base account.
proof fn lemma_base_step_account_number(s: Seq<u8>, p: int, limit: int, m: BaseAccountModel, v: u64)
    requires
        v != 0,
        bytes_at(s, p, uint64_field(3, v)),
        p + uint64_field(3, v).len() <= read_end(s, limit),
    ensures
        merge_base_account(s, p, limit, m) == merge_base_account(
            s,
            p + uint64_field(3, v).len(),
            limit,
            BaseAccountModel { account_number: v, ..m },
        ),
{
    reveal(merge_base_account);
    lemma_read_uint64_field(s, p, limit, 3, v);
}

/// A sequence field reads back into a base account.
proof fn lemma_base_step_sequence(s: Seq<u8>, p: int, limit: int, m: BaseAccountModel, v: u64)
    requires
        v != 0,
        bytes_at(s, p, uint64_field(4, v)),
        p + uint64_field(4, v).len() <= read_end(s, limit),
    ensures
        merge_base_account(s, p, limit, m) == merge_base_account(
            s,
            p + uint64_field(4, v).len(),
            limit,
            BaseAccountModel { sequence: v, ..m },
        ),
{
    reveal(merge_base_account);
    lemma_read_uint64_field(s, p, limit, 4, v);
}

/// A base account whose encoding reads back as itself.
pub open spec fn base_account_readable(m: BaseAccountModel) -> bool {
    &&& base_account_wf(m)
    &&& unknown_readable(m.unknown, 4)
    &&& (m.pub_key matches Some(k) ==> any_readable(k))
}

/// The declared fields of a base account read back into the default one.
proof fn lemma_base_account_declared_fields(s: Seq<u8>, p: int, limit: int, m: BaseAccountModel)
    requires
        base_account_readable(m),
        bytes_at(s, p, base_account_bytes(m)),
        read_end(s, limit) == p + base_account_bytes(m).len(),
    ensures
        merge_base_account(s, p, limit, default_base_account()) == merge_base_account(
            s,
            p + base_account_bytes(m).len() - unknown_bytes(m.unknown).len(),
            limit,
            BaseAccountModel { unknown: Seq::empty(), ..m },
        ),
{
    let a = string_field(1, m.address);
    let k = match m.pub_key {
        Some(key) => len_field(2, any_bytes(key)),
        None => Seq::empty(),
    };
    let n = uint64_field(3, m.account_number);
    let q = uint64_field(4, m.sequence);
    let u = unknown_bytes(m.unknown);
    lemma_bytes_at_split(s, p, a + k + n + q, u);
    lemma_bytes_at_split(s, p, a + k + n, q);
    lemma_bytes_at_split(s, p, a + k, n);
    lemma_bytes_at_split(s, p, a, k);
    let m0 = default_base_account();
    let m1 = BaseAccountModel { address: m.address, ..m0 };
    if m.address.len() > 0 {
        lemma_base_step_address(s, p, limit, m0, m.address);
    } else {
        assert(m.address =~= Seq::<char>::empty());
    }
    let p1 = p + a.len();
    let m2 = BaseAccountModel { pub_key: m.pub_key, ..m1 };
    match m.pub_key {
        Some(key) => {
            lemma_base_step_pub_key(s, p1, limit, m1, key);
        },
        None => {},
    }
    let p2 = p1 + k.len();
    let m3 = BaseAccountModel { account_number: m.account_number, ..m2 };
    if m.account_number != 0 {
        lemma_base_step_account_number(s, p2, limit, m2, m.account_number);
    }
    let p3 = p2 + n.len();
    let m4 = BaseAccountModel { sequence: m.sequence, ..m3 };
    if m.sequence != 0 {
        lemma_base_step_sequence(s, p3, limit, m3, m.sequence);
    }
    assert(m4 == BaseAccountModel { unknown: Seq::empty(), ..m });
}

/// The encoding of a base account, read into the default one, gives it
/// back.
pub proof fn lemma_base_account_reads_back(s: Seq<u8>, p: int, limit: int, m: BaseAccountModel)
    requires
        base_account_readable(m),
        bytes_at(s, p, base_account_bytes(m)),
        read_end(s, limit) == p + base_account_bytes(m).len(),
    ensures
        merge_base_account(s, p, limit, default_base_account()) == Ok::<(BaseAccountModel, int), WireError>(
            (m, p + base_account_bytes(m).len()),
        ),
{
    reveal(merge_base_account);
    let u = unknown_bytes(m.unknown);
    let p4 = p + base_account_bytes(m).len() - u.len();
    let m4 = BaseAccountModel { unknown: Seq::empty(), ..m };
    lemma_base_account_declared_fields(s, p, limit, m);
    assert(base_account_bytes(m) =~= (base_account_bytes(m).subrange(0, p4 - p) + u));
    lemma_bytes_at_split(s, p, base_account_bytes(m).subrange(0, p4 - p), u);
    let items = unknown_items(m.unknown);
    lemma_unknown_bytes_items(m.unknown);
    lemma_unknown_items_wf(m.unknown, 4);
    lemma_merge_base_account_items(s, p4, limit, m4, items);
    lemma_add_all_unknown_items(m.unknown);
    assert(BaseAccountModel { unknown: add_all(m4.unknown, items), ..m4 } == m);
}

/// Undeclared values read back into an account message and are added to
/// its undeclared fields.
proof fn lemma_merge_eth_account_items(
    s: Seq<u8>,
    p: int,
    limit: int,
    m: EthAccountModel,
    items: Seq<(u32, UnknownValueModel)>,
)
    requires
        bytes_at(s, p, flat(items, unknown_item_fn())),
        p + flat(items, unknown_item_fn()).len() <= read_end(s, limit),
        forall|k: int| 0 <= k < items.len() ==> item_wf(#[trigger] items[k]) && items[k].0 > 2,
    ensures
        merge_eth_account(s, p, limit, m) == merge_eth_account(
            s,
            p + flat(items, unknown_item_fn()).len(),
            limit,
            EthAccountModel { unknown: add_all(m.unknown, items), ..m },
        ),
    decreases items.len(),
{
    reveal(merge_eth_account);
    if items.len() == 0 {
        assert(m == EthAccountModel { unknown: add_all(m.unknown, items), ..m });
    } else {
        let first = items[0];
        let rest = items.subrange(1, items.len() as int);
        lemma_items_first(items, m.unknown);
        lemma_bytes_at_split(s, p, unknown_item(first), flat(rest, unknown_item_fn()));
        lemma_read_unknown_item(s, p, limit, first, m.unknown);
        let q = p + unknown_item(first).len();
        let m1 = EthAccountModel { unknown: add_unknown(m.unknown, first.0, first.1), ..m };
        assert(merge_eth_account(s, p, limit, m) == merge_eth_account(s, q, limit, m1));
        assert forall|k: int| 0 <= k < rest.len() implies item_wf(#[trigger] rest[k]) && rest[k].0 > 2 by {
            assert(rest[k] == items[k + 1]);
        }
        lemma_merge_eth_account_items(s, q, limit, m1, rest);
    }
}

/// A base account field reads back into an account message that has none.
proof fn lemma_eth_step_base_account(s: Seq<u8>, p: int, limit: int, m: EthAccountModel, b: BaseAccountModel)
    requires
        m.base_account is None,
        base_account_readable(b),
        bytes_at(s, p, len_field(1, base_account_bytes(b))),
        p + len_field(1, base_account_bytes(b)).len() <= read_end(s, limit),
    ensures
        merge_eth_account(s, p, limit, m) == merge_eth_account(
            s,
            p + len_field(1, base_account_bytes(b)).len(),
            limit,
            EthAccountModel { base_account: Some(b), ..m },
        ),
{
    reveal(merge_eth_account);
    let body = base_account_bytes(b);
    lemma_read_len_field(s, p, limit, 1, body);
    let start = p + tag(1, 2).len() + varint(body.len()).len();
    let sub = p + len_field(1, body).len();
    assert(read_end(s, sub) == start + body.len());
    lemma_base_account_reads_back(s, start, sub, b);
}

/// A code hash field reads back into an account message.
proof fn lemma_eth_step_code_hash(s: Seq<u8>, p: int, limit: int, m: EthAccountModel, h: Seq<u8>)
    requires
        h.len() > 0,
        h.len() < 0x1_0000_0000,
        bytes_at(s, p, bytes_field(2, h)),
        p + bytes_field(2, h).len() <= read_end(s, limit),
    ensures
        merge_eth_account(s, p, limit, m) == merge_eth_account(
            s,
            p + bytes_field(2, h).len(),
            limit,
            EthAccountModel { code_hash: h, ..m },
        ),
{
    reveal(merge_eth_account);
    lemma_read_len_field(s, p, limit, 2, h);
}

/// An account message whose encoding reads back as itself: it can be
/// written, and its undeclared fields, and those of what it holds, read back.
pub open spec fn eth_account_readable(m: EthAccountModel) -> bool {
    &&& eth_account_wf(m)
    &&& unknown_readable(m.unknown, 2)
    &&& (m.base_account matches Some(b) ==> base_account_readable(b))
}

/// The encoding of an account message, read into a new one, gives it back.
pub proof fn lemma_eth_account_reads_back(s: Seq<u8>, p: int, limit: int, m: EthAccountModel)
    requires
        eth_account_readable(m),
        bytes_at(s, p, eth_account_bytes(m)),
        read_end(s, limit) == p + eth_account_bytes(m).len(),
    ensures
        merge_eth_account(s, p, limit, empty_eth_account()) == Ok::<(EthAccountModel, int), WireError>(
            (m, p + eth_account_bytes(m).len()),
        ),
{
    reveal(merge_eth_account);
    let b = match m.base_account {
        Some(base) => len_field(1, base_account_bytes(base)),
        None => Seq::empty(),
    };
    let h = bytes_field(2, m.code_hash);
    let u = unknown_bytes(m.unknown);
    lemma_bytes_at_split(s, p, b + h, u);
    lemma_bytes_at_split(s, p, b, h);
    let m0 = empty_eth_account();
    let m1 = EthAccountModel { base_account: m.base_account, ..m0 };
    match m.base_account {
        Some(base) => {
            lemma_eth_step_base_account(s, p, limit, m0, base);
        },
        None => {},
    }
    let p1 = p + b.len();
    let m2 = EthAccountModel { code_hash: m.code_hash, ..m1 };
    if m.code_hash.len() > 0 {
        lemma_eth_step_code_hash(s, p1, limit, m1, m.code_hash);
    } else {
        assert(m.code_hash =~= Seq::<u8>::empty());
    }
    let p2 = p1 + h.len();
    let items = unknown_items(m.unknown);
    lemma_unknown_bytes_items(m.unknown);
    lemma_unknown_items_wf(m.unknown, 2);
    lemma_merge_eth_account_items(s, p2, limit, m2, items);
    lemma_add_all_unknown_items(m.unknown);
    assert(EthAccountModel { unknown: add_all(m2.unknown, items), ..m2 } == m);
}

} // verus!
