//! The protobuf wire format: varints, tags, fixed-width and
//! length-delimited values, and the fields a message does not know.
//!
//! Varints and fixed-width values are read and written by the `protobuf`
//! crate's coded streams, behind the trusted items below; tags, lengths,
//! limits, groups and the fields a message does not declare are built on
//! them here.
//!
//! Reading follows a byte slice up to a limit, as a coded input stream over
//! a slice does: the whole slice at the top level, the declared length inside
//! a nested message. A limit past the end of the slice stops at the slice's
//! end.
use vstd::prelude::*;

verus! {

/// What a read of the wire format can fail with.
#[derive(Clone, Copy, Debug, PartialEq, Eq, Structural)]
pub enum WireError {
    /// The input ended inside a value.
    UnexpectedEof,
    /// A field came with a wire type that its declaration does not allow.
    UnexpectedWireType(u32),
    /// A tag with field number zero or an unknown wire type.
    IncorrectTag(u32),
    /// A varint of more than ten bytes.
    IncorrectVarint,
    /// A string field that is not UTF-8.
    Utf8Error,
    /// A length-delimited value longer than what is left before the limit.
    TruncatedMessage,
    /// A nested message that ends past the enclosing limit.
    Other,
}

/// The wire type of varints.
pub const WIRE_VARINT: u32 = 0;

/// The wire type of little-endian 64-bit values.
pub const WIRE_FIXED64: u32 = 1;

/// The wire type of length-delimited values.
pub const WIRE_LEN: u32 = 2;

/// The wire type that opens a group.
pub const WIRE_START_GROUP: u32 = 3;

/// The wire type that closes a group.
pub const WIRE_END_GROUP: u32 = 4;

/// The wire type of little-endian 32-bit values.
pub const WIRE_FIXED32: u32 = 5;

/// The limit of a read from a whole slice: no limit.
pub const NO_LIMIT: u64 = 0xffff_ffff_ffff_ffff;

/// From this length on, a length-delimited value that the input is too
/// short for is reported as truncated rather than as an early end.
pub const LARGE_READ: u64 = 10_000_000;

/// 128^n.
pub open spec fn pow_base128(n: nat) -> nat
    decreases n,
{
    if n == 0 {
        1
    } else {
        128 * pow_base128((n - 1) as nat)
    }
}

/// 2^64.
pub open spec fn two_pow64() -> nat {
    0x1_0000_0000_0000_0000nat
}

/// 2^32.
pub open spec fn two_pow32() -> nat {
    0x1_0000_0000nat
}

/// The varint encoding of `v`: seven bits a byte, least significant first,
/// the high bit set on every byte but the last.
pub open spec fn varint(v: nat) -> Seq<u8>
    decreases v,
{
    if v < 128 {
        seq![v as u8]
    } else {
        seq![(v % 128 + 128) as u8] + varint(v / 128)
    }
}

/// The value of the varint that starts `i` bytes after `pos`, with the
/// position after it; reading stops at `end`, and after ten bytes.
pub open spec fn varint_from(s: Seq<u8>, pos: int, end: int, i: int) -> Result<(nat, int), WireError>
    decreases 10 - i,
{
    if i >= 10 {
        Err(WireError::IncorrectVarint)
    } else if pos + i >= end {
        Err(WireError::UnexpectedEof)
    } else if s[pos + i] < 128 {
        Ok((s[pos + i] as nat, pos + i + 1))
    } else {
        match varint_from(s, pos, end, i + 1) {
            Ok((v, n)) => Ok(((s[pos + i] - 128) as nat + 128 * v, n)),
            Err(e) => Err(e),
        }
    }
}

/// The 64-bit varint at `pos`: bits past the 64th are dropped.
pub open spec fn parse_varint(s: Seq<u8>, pos: int, end: int) -> Result<(u64, int), WireError> {
    match varint_from(s, pos, end, 0) {
        Ok((v, n)) => Ok(((v % two_pow64()) as u64, n)),
        Err(e) => Err(e),
    }
}

/// Calls `CodedOutputStream::write_raw_varint64` on a stream that appends
/// to `out`, then `flush`. Its contract claims what the source writes: the
/// varint encoding of `v` after what `out` held (a stream into a vector does
/// not fail).
#[verifier::external_body]
pub(crate) fn push_varint(out: &mut Vec<u8>, v: u64)
    ensures
        final(out)@ == old(out)@ + varint(v as nat),
{
    let mut os = protobuf::CodedOutputStream::vec(out);
    let _ = os.write_raw_varint64(v);
    let _ = os.flush();
}

/// Calls `protobuf::rt::compute_raw_varint64_size`. Its contract claims what
/// the source computes: the length of the varint encoding of `v`, one to ten
/// bytes.
#[verifier::external_body]
pub(crate) fn varint_size(v: u64) -> (r: u32)
    ensures
        r == varint(v as nat).len(),
        1 <= r <= 10,
{
    protobuf::rt::compute_raw_varint64_size(v)
}

/// 128^10 is 2^70.
proof fn lemma_pow_base128_ten()
    ensures
        pow_base128(10) == 0x40_0000_0000_0000_0000nat,
{
    reveal_with_fuel(pow_base128, 11);
}

/// The varint at `pos` reads as `v`, with `next` after it.
pub open spec fn varint_reads_as(s: Seq<u8>, pos: int, end: int, v: u64, next: int) -> bool {
    parse_varint(s, pos, end) == Ok::<(u64, int), WireError>((v, next))
}

/// Reading the varint at `pos` fails with `e`.
pub open spec fn varint_fails_with(s: Seq<u8>, pos: int, end: int, e: WireError) -> bool {
    parse_varint(s, pos, end) == Err::<(u64, int), WireError>(e)
}

/// The `width` bytes at `pos` read as `v`.
pub open spec fn fixed_reads_as(s: Seq<u8>, pos: int, end: int, width: nat, v: nat) -> bool {
    parse_fixed(s, pos, end, width) == Ok::<(nat, int), WireError>((v, pos + width))
}

/// Calls `CodedInputStream::read_raw_varint64` on a stream over
/// `s[pos..end]`, and `pos` of the stream for the bytes it read. Its
/// contract claims what the source computes: the value of `parse_varint`
/// and its length, an error for more than ten bytes, and an early end
/// otherwise.
#[verifier::external_body]
fn raw_varint(s: &[u8], pos: usize, end: usize) -> (r: Result<(u64, u64), WireError>)
    requires
        pos <= end <= s@.len(),
    ensures
        r matches Ok((v, used)) ==> varint_reads_as(s@, pos as int, end as int, v, pos + used),
        r matches Err(e) ==> varint_fails_with(s@, pos as int, end as int, e),
{
    let mut is = protobuf::CodedInputStream::from_bytes(&s[pos..end]);
    match is.read_raw_varint64() {
        Ok(v) => Ok((v, is.pos())),
        Err(protobuf::ProtobufError::WireError(protobuf::error::WireError::IncorrectVarint)) => Err(
            WireError::IncorrectVarint,
        ),
        Err(_) => Err(WireError::UnexpectedEof),
    }
}

/// Reads the 64-bit varint at `pos`, stopping at `end`.
pub fn read_varint(s: &[u8], pos: usize, end: usize) -> (r: Result<(u64, usize), WireError>)
    requires
        pos <= end <= s@.len(),
    ensures
        match r {
            Ok((v, n)) => parse_varint(s@, pos as int, end as int) == Ok::<(u64, int), WireError>((v, n as int)),
            Err(e) => parse_varint(s@, pos as int, end as int) == Err::<(u64, int), WireError>(e),
        },
{
    let (v, used) = raw_varint(s, pos, end)?;
    proof {
        lemma_varint_from_bounds(s@, pos as int, end as int, 0);
    }
    Ok((v, pos + used as usize))
}

/// The varint encoding of `w`, read back from where it starts `i` bytes
/// after `pos`, gives `w` and the position after it.
pub proof fn lemma_varint_from_encoding(s: Seq<u8>, pos: int, end: int, i: int, w: nat)
    requires
        0 <= i < 10,
        0 <= pos,
        w < pow_base128((10 - i) as nat),
        pos + i + varint(w).len() <= end,
        pos + i + varint(w).len() <= s.len(),
        s.subrange(pos + i, pos + i + varint(w).len()) == varint(w),
    ensures
        varint_from(s, pos, end, i) == Ok::<(nat, int), WireError>((w, pos + i + varint(w).len())),
    decreases w,
{
    let enc = varint(w);
    assert(s[pos + i] == enc[0]) by {
        assert(s.subrange(pos + i, pos + i + enc.len())[0] == s[pos + i]);
    }
    if w >= 128 {
        if i == 9 {
            assert(pow_base128(1) == 128 * pow_base128(0));
            assert(pow_base128(0) == 1);
        }
        let rest = varint(w / 128);
        assert(enc == seq![(w % 128 + 128) as u8] + rest);
        assert(pow_base128((10 - i) as nat) == 128 * pow_base128((10 - (i + 1)) as nat));
        assert(s.subrange(pos + i + 1, pos + i + 1 + rest.len()) =~= rest) by {
            assert forall|k: int| 0 <= k < rest.len() implies s.subrange(pos + i + 1, pos + i + 1 + rest.len())[k] == rest[k] by {
                assert(s.subrange(pos + i, pos + i + enc.len())[k + 1] == enc[k + 1]);
            }
        }
        lemma_varint_from_encoding(s, pos, end, i + 1, w / 128);
    }
}

/// The varint encoding of a 64-bit value reads back as that value.
pub proof fn lemma_parse_varint_encoding(s: Seq<u8>, pos: int, end: int, v: u64)
    requires
        0 <= pos,
        pos + varint(v as nat).len() <= end,
        pos + varint(v as nat).len() <= s.len(),
        s.subrange(pos, pos + varint(v as nat).len()) == varint(v as nat),
    ensures
        parse_varint(s, pos, end) == Ok::<(u64, int), WireError>((v, pos + varint(v as nat).len())),
{
    lemma_pow_base128_ten();
    lemma_varint_from_encoding(s, pos, end, 0, v as nat);
}

/// Where a read from `pos` must stop: the limit, or the end of the input
/// where that comes first.
pub open spec fn read_end(s: Seq<u8>, limit: int) -> int {
    if limit < s.len() {
        limit
    } else {
        s.len() as int
    }
}

/// The end of reading for a limit, as an index into `s`.
fn end_for(s: &[u8], limit: u64) -> (r: usize)
    ensures
        r == read_end(s@, limit as int),
{
    if (s.len() as u64) <= limit {
        s.len()
    } else {
        limit as usize
    }
}

/// A varint that reads back is at least a byte long and ends by `end`.
pub proof fn lemma_varint_from_bounds(s: Seq<u8>, pos: int, end: int, i: int)
    requires
        0 <= i,
    ensures
        varint_from(s, pos, end, i) matches Ok((v, n)) ==> pos + i < n <= end,
    decreases 10 - i,
{
    if i < 10 && pos + i < end && s[pos + i] >= 128 {
        lemma_varint_from_bounds(s, pos, end, i + 1);
    }
}

/// The tag at `pos`: its field number, its wire type, and the position after
/// it. Only the low 32 bits of the varint count.
pub open spec fn parse_tag(s: Seq<u8>, pos: int, end: int) -> Result<(u32, u32, int), WireError> {
    match parse_varint(s, pos, end) {
        Err(e) => Err(e),
        Ok((v, n)) => {
            let t = (v as nat % two_pow32()) as u32;
            if t % 8 > 5 || t / 8 == 0 {
                Err(WireError::IncorrectTag(t))
            } else {
                Ok(((t / 8) as u32, (t % 8) as u32, n))
            }
        },
    }
}

/// The encoding of a tag.
pub open spec fn tag(field: nat, wire_type: nat) -> Seq<u8> {
    varint(field * 8 + wire_type)
}

/// Reads the tag at `pos`.
pub fn read_tag(s: &[u8], pos: usize, end: usize) -> (r: Result<(u32, u32, usize), WireError>)
    requires
        pos <= end <= s@.len(),
    ensures
        match r {
            Ok((f, w, n)) => parse_tag(s@, pos as int, end as int) == Ok::<(u32, u32, int), WireError>((f, w, n as int)),
            Err(e) => parse_tag(s@, pos as int, end as int) == Err::<(u32, u32, int), WireError>(e),
        },
{
    let (v, n) = read_varint(s, pos, end)?;
    let t: u32 = (v % 0x1_0000_0000) as u32;
    if t % 8 > 5 || t / 8 == 0 {
        Err(WireError::IncorrectTag(t))
    } else {
        Ok((t / 8, t % 8, n))
    }
}

/// Appends the tag of a field.
pub fn push_tag(out: &mut Vec<u8>, field: u32, wire_type: u32)
    requires
        0 < field < 0x2000_0000,
        wire_type < 8,
    ensures
        final(out)@ == old(out)@ + tag(field as nat, wire_type as nat),
{
    push_varint(out, (field as u64) * 8 + (wire_type as u64));
}

/// 256^n.
pub open spec fn pow_base256(n: nat) -> nat
    decreases n,
{
    if n == 0 {
        1
    } else {
        256 * pow_base256((n - 1) as nat)
    }
}

/// The `n` bytes at `pos` read as a little-endian integer.
pub open spec fn le_value(s: Seq<u8>, pos: int, n: nat) -> nat
    decreases n,
{
    if n == 0 {
        0
    } else {
        s[pos] as nat + 256 * le_value(s, pos + 1, (n - 1) as nat)
    }
}

/// The `n` little-endian bytes of `v`.
pub open spec fn le_bytes(v: nat, n: nat) -> Seq<u8>
    decreases n,
{
    if n == 0 {
        Seq::empty()
    } else {
        seq![(v % 256) as u8] + le_bytes(v / 256, (n - 1) as nat)
    }
}

/// The little-endian value of `width` bytes at `pos`, with the position after.
pub open spec fn parse_fixed(s: Seq<u8>, pos: int, end: int, width: nat) -> Result<(nat, int), WireError> {
    if pos + width > end {
        Err(WireError::UnexpectedEof)
    } else {
        Ok((le_value(s, pos, width), pos + width))
    }
}

/// Calls `CodedInputStream::read_raw_little_endian32` on a stream over
/// `s[pos..end]`. Its contract claims what the source computes: the four
/// bytes at `pos` as a little-endian integer, or an early end.
#[verifier::external_body]
fn raw_fixed32(s: &[u8], pos: usize, end: usize) -> (r: Option<u32>)
    requires
        pos <= end <= s@.len(),
    ensures
        r matches Some(v) ==> fixed_reads_as(s@, pos as int, end as int, 4, v as nat),
        r is None ==> parse_fixed(s@, pos as int, end as int, 4) is Err,
{
    let mut is = protobuf::CodedInputStream::from_bytes(&s[pos..end]);
    match is.read_raw_little_endian32() {
        Ok(v) => Some(v),
        Err(_) => None,
    }
}

/// Calls `CodedInputStream::read_raw_little_endian64` on a stream over
/// `s[pos..end]`. Its contract claims what the source computes: the eight
/// bytes at `pos` as a little-endian integer, or an early end.
#[verifier::external_body]
fn raw_fixed64(s: &[u8], pos: usize, end: usize) -> (r: Option<u64>)
    requires
        pos <= end <= s@.len(),
    ensures
        r matches Some(v) ==> fixed_reads_as(s@, pos as int, end as int, 8, v as nat),
        r is None ==> parse_fixed(s@, pos as int, end as int, 8) is Err,
{
    let mut is = protobuf::CodedInputStream::from_bytes(&s[pos..end]);
    match is.read_raw_little_endian64() {
        Ok(v) => Some(v),
        Err(_) => None,
    }
}

/// Calls `CodedOutputStream::write_raw_little_endian32` on a stream that
/// appends to `out`, then `flush`. Its contract claims what the source
/// writes: the four little-endian bytes of `v`.
#[verifier::external_body]
fn push_fixed32(out: &mut Vec<u8>, v: u32)
    ensures
        final(out)@ == old(out)@ + le_bytes(v as nat, 4),
{
    let mut os = protobuf::CodedOutputStream::vec(out);
    let _ = os.write_raw_little_endian32(v);
    let _ = os.flush();
}

/// Calls `CodedOutputStream::write_raw_little_endian64` on a stream that
/// appends to `out`, then `flush`. Its contract claims what the source
/// writes: the eight little-endian bytes of `v`.
#[verifier::external_body]
fn push_fixed64(out: &mut Vec<u8>, v: u64)
    ensures
        final(out)@ == old(out)@ + le_bytes(v as nat, 8),
{
    let mut os = protobuf::CodedOutputStream::vec(out);
    let _ = os.write_raw_little_endian64(v);
    let _ = os.flush();
}

/// The bytes of the length-delimited value at `pos`, with the position
/// after them. The length counts by its low 32 bits. A length past the limit
/// is a truncated message; a length within the limit that the input is too
/// short for is an early end, or a truncated message from `LARGE_READ` bytes
/// on.
pub open spec fn parse_len_bytes(s: Seq<u8>, pos: int, limit: int) -> Result<(Seq<u8>, int), WireError> {
    match parse_varint(s, pos, read_end(s, limit)) {
        Err(e) => Err(e),
        Ok((v, n)) => {
            let len = v as nat % two_pow32();
            if len > limit - n {
                Err(WireError::TruncatedMessage)
            } else if n + len > s.len() {
                if len >= LARGE_READ {
                    Err(WireError::TruncatedMessage)
                } else {
                    Err(WireError::UnexpectedEof)
                }
            } else {
                Ok((s.subrange(n, n + len), n + len))
            }
        },
    }
}

/// The encoding of a length-delimited field.
pub open spec fn len_field(field: nat, b: Seq<u8>) -> Seq<u8> {
    tag(field, 2) + varint(b.len()) + b
}

/// A copy of `s[from..to]`.
fn copy_range(s: &[u8], from: usize, to: usize) -> (r: Vec<u8>)
    requires
        from <= to <= s@.len(),
    ensures
        r@ == s@.subrange(from as int, to as int),
{
    let mut r: Vec<u8> = Vec::new();
    let mut k: usize = from;
    while k < to
        invariant
            from <= k <= to <= s@.len(),
            r@ == s@.subrange(from as int, k as int),
        decreases to - k,
    {
        r.push(s[k]);
        assert(r@ =~= s@.subrange(from as int, k + 1));
        k = k + 1;
    }
    r
}

/// Reads the length-delimited value at `pos`.
pub fn read_len_bytes(s: &[u8], pos: usize, limit: u64) -> (r: Result<(Vec<u8>, usize), WireError>)
    requires
        pos <= read_end(s@, limit as int),
    ensures
        match r {
            Ok((b, n)) => parse_len_bytes(s@, pos as int, limit as int) == Ok::<(Seq<u8>, int), WireError>((b@, n as int)),
            Err(e) => parse_len_bytes(s@, pos as int, limit as int) == Err::<(Seq<u8>, int), WireError>(e),
        },
{
    let end = end_for(s, limit);
    let (v, n) = read_varint(s, pos, end)?;
    proof {
        lemma_varint_from_bounds(s@, pos as int, end as int, 0);
    }
    let len: u64 = v % 0x1_0000_0000;
    if len > limit - (n as u64) {
        return Err(WireError::TruncatedMessage);
    }
    if len > (s.len() - n) as u64 {
        if len >= LARGE_READ {
            return Err(WireError::TruncatedMessage);
        }
        return Err(WireError::UnexpectedEof);
    }
    let stop: usize = n + len as usize;
    let b = copy_range(s, n, stop);
    Ok((b, stop))
}

/// Appends a length-delimited field.
pub fn push_len_field(out: &mut Vec<u8>, field: u32, b: &[u8])
    requires
        0 < field < 0x2000_0000,
        b@.len() < 0x1_0000_0000,
    ensures
        final(out)@ == old(out)@ + len_field(field as nat, b@),
{
    let ghost before = out@;
    push_tag(out, field, WIRE_LEN);
    push_varint(out, b.len() as u64);
    let ghost mid = out@;
    let mut k: usize = 0;
    while k < b.len()
        invariant
            k <= b@.len(),
            out@ == mid + b@.subrange(0, k as int),
        decreases b@.len() - k,
    {
        out.push(b[k]);
        assert(out@ =~= mid + b@.subrange(0, k + 1));
        k = k + 1;
    }
    assert(b@.subrange(0, b@.len() as int) =~= b@);
    assert(out@ =~= before + len_field(field as nat, b@));
}

/// The size of a length-delimited field.
pub fn len_field_size(field: u32, len: usize) -> (r: u64)
    requires
        0 < field < 0x2000_0000,
        len < 0x1_0000_0000,
    ensures
        forall|b: Seq<u8>| b.len() == len ==> r == #[trigger] len_field(field as nat, b).len(),
{
    let t = varint_size((field as u64) * 8 + 2) as u64;
    let l = varint_size(len as u64) as u64;
    t + l + len as u64
}

/// The value of a field that a message does not declare, as it came.
#[derive(Debug)]
pub enum UnknownValue {
    Fixed32(u32),
    Fixed64(u64),
    Varint(u64),
    LengthDelimited(Vec<u8>),
}

/// The content of an [`UnknownValue`].
pub enum UnknownValueModel {
    Fixed32(u32),
    Fixed64(u64),
    Varint(u64),
    LengthDelimited(Seq<u8>),
}

impl View for UnknownValue {
    type V = UnknownValueModel;

    open spec fn view(&self) -> UnknownValueModel {
        match self {
            UnknownValue::Fixed32(x) => UnknownValueModel::Fixed32(*x),
            UnknownValue::Fixed64(x) => UnknownValueModel::Fixed64(*x),
            UnknownValue::Varint(x) => UnknownValueModel::Varint(*x),
            UnknownValue::LengthDelimited(b) => UnknownValueModel::LengthDelimited(b@),
        }
    }
}

/// The value of wire type `wire_type` at `pos`, with the position after it.
pub open spec fn parse_unknown(s: Seq<u8>, pos: int, limit: int, wire_type: u32) -> Result<(UnknownValueModel, int), WireError> {
    let end = read_end(s, limit);
    if wire_type == WIRE_VARINT {
        match parse_varint(s, pos, end) {
            Ok((v, n)) => Ok((UnknownValueModel::Varint(v), n)),
            Err(e) => Err(e),
        }
    } else if wire_type == WIRE_FIXED64 {
        match parse_fixed(s, pos, end, 8) {
            Ok((v, n)) => Ok((UnknownValueModel::Fixed64(v as u64), n)),
            Err(e) => Err(e),
        }
    } else if wire_type == WIRE_FIXED32 {
        match parse_fixed(s, pos, end, 4) {
            Ok((v, n)) => Ok((UnknownValueModel::Fixed32(v as u32), n)),
            Err(e) => Err(e),
        }
    } else if wire_type == WIRE_LEN {
        match parse_len_bytes(s, pos, limit) {
            Ok((b, n)) => Ok((UnknownValueModel::LengthDelimited(b), n)),
            Err(e) => Err(e),
        }
    } else {
        Err(WireError::UnexpectedWireType(wire_type))
    }
}

/// What is read of a value never goes back nor past the end of reading.
pub proof fn lemma_parse_unknown_bounds(s: Seq<u8>, pos: int, limit: int, wire_type: u32)
    ensures
        parse_unknown(s, pos, limit, wire_type) matches Ok((v, n)) ==> pos <= n <= read_end(s, limit),
{
    lemma_varint_from_bounds(s, pos, read_end(s, limit), 0);
}

/// Reads the value of wire type `wire_type` at `pos`.
pub fn read_unknown(s: &[u8], pos: usize, limit: u64, wire_type: u32) -> (r: Result<(UnknownValue, usize), WireError>)
    requires
        pos <= read_end(s@, limit as int),
    ensures
        match r {
            Ok((v, n)) => parse_unknown(s@, pos as int, limit as int, wire_type) == Ok::<(UnknownValueModel, int), WireError>((v@, n as int)),
            Err(e) => parse_unknown(s@, pos as int, limit as int, wire_type) == Err::<(UnknownValueModel, int), WireError>(e),
        },
{
    let end = end_for(s, limit);
    if wire_type == WIRE_VARINT {
        let (v, n) = read_varint(s, pos, end)?;
        Ok((UnknownValue::Varint(v), n))
    } else if wire_type == WIRE_FIXED64 {
        match raw_fixed64(s, pos, end) {
            Some(v) => Ok((UnknownValue::Fixed64(v), pos + 8)),
            None => Err(WireError::UnexpectedEof),
        }
    } else if wire_type == WIRE_FIXED32 {
        match raw_fixed32(s, pos, end) {
            Some(v) => Ok((UnknownValue::Fixed32(v), pos + 4)),
            None => Err(WireError::UnexpectedEof),
        }
    } else if wire_type == WIRE_LEN {
        let (b, n) = read_len_bytes(s, pos, limit)?;
        Ok((UnknownValue::LengthDelimited(b), n))
    } else {
        Err(WireError::UnexpectedWireType(wire_type))
    }
}

/// The position after the group that starts at `pos`: fields are skipped up
/// to the first tag that closes a group. A group inside it is not allowed.
pub open spec fn skip_group(s: Seq<u8>, pos: int, limit: int) -> Result<int, WireError>
    decreases s.len() - pos,
{
    match parse_tag(s, pos, read_end(s, limit)) {
        Err(e) => Err(e),
        Ok((f, w, n)) => {
            if w == WIRE_END_GROUP {
                Ok(n)
            } else {
                match parse_unknown(s, n, limit, w) {
                    Err(e) => Err(e),
                    Ok((v, m)) => {
                        proof {
                            lemma_varint_from_bounds(s, pos, read_end(s, limit), 0);
                            lemma_parse_unknown_bounds(s, n, limit, w);
                        }
                        skip_group(s, m, limit)
                    },
                }
            }
        },
    }
}

/// Skips the group that starts at `pos`.
pub fn read_skip_group(s: &[u8], pos: usize, limit: u64) -> (r: Result<usize, WireError>)
    requires
        pos <= read_end(s@, limit as int),
    ensures
        match r {
            Ok(n) => skip_group(s@, pos as int, limit as int) == Ok::<int, WireError>(n as int),
            Err(e) => skip_group(s@, pos as int, limit as int) == Err::<int, WireError>(e),
        },
{
    let end = end_for(s, limit);
    let mut p: usize = pos;
    loop
        invariant
            pos <= p <= end,
            end == read_end(s@, limit as int),
            skip_group(s@, pos as int, limit as int) == skip_group(s@, p as int, limit as int),
        decreases end - p,
    {
        let (f, w, n) = read_tag(s, p, end)?;
        proof {
            lemma_varint_from_bounds(s@, p as int, end as int, 0);
        }
        if w == WIRE_END_GROUP {
            return Ok(n);
        }
        let (v, m) = read_unknown(s, n, limit, w)?;
        proof {
            lemma_parse_unknown_bounds(s@, n as int, limit as int, w);
        }
        p = m;
    }
}

/// The values that came for one undeclared field number, by wire type.
#[derive(Debug)]
pub struct UnknownValues {
    pub fixed32: Vec<u32>,
    pub fixed64: Vec<u64>,
    pub varint: Vec<u64>,
    pub length_delimited: Vec<Vec<u8>>,
}

/// The content of [`UnknownValues`].
pub struct UnknownValuesModel {
    pub fixed32: Seq<u32>,
    pub fixed64: Seq<u64>,
    pub varint: Seq<u64>,
    pub length_delimited: Seq<Seq<u8>>,
}

impl View for UnknownValues {
    type V = UnknownValuesModel;

    open spec fn view(&self) -> UnknownValuesModel {
        UnknownValuesModel {
            fixed32: self.fixed32@,
            fixed64: self.fixed64@,
            varint: self.varint@,
            length_delimited: Seq::new(self.length_delimited@.len(), |i: int| self.length_delimited@[i]@),
        }
    }
}

/// No values.
pub open spec fn no_values() -> UnknownValuesModel {
    UnknownValuesModel {
        fixed32: Seq::empty(),
        fixed64: Seq::empty(),
        varint: Seq::empty(),
        length_delimited: Seq::empty(),
    }
}

/// `vs` with `v` added after the values of its wire type.
pub open spec fn add_value(vs: UnknownValuesModel, v: UnknownValueModel) -> UnknownValuesModel {
    match v {
        UnknownValueModel::Fixed32(x) => UnknownValuesModel { fixed32: vs.fixed32.push(x), ..vs },
        UnknownValueModel::Fixed64(x) => UnknownValuesModel { fixed64: vs.fixed64.push(x), ..vs },
        UnknownValueModel::Varint(x) => UnknownValuesModel { varint: vs.varint.push(x), ..vs },
        UnknownValueModel::LengthDelimited(b) => UnknownValuesModel {
            length_delimited: vs.length_delimited.push(b),
            ..vs
        },
    }
}

/// The undeclared fields of a message: for each field number, in the order
/// in which the numbers first came, its values.
#[derive(Debug)]
pub struct UnknownField {
    pub number: u32,
    pub values: UnknownValues,
}

/// The undeclared fields that a message keeps so that writing it again loses
/// nothing.
#[derive(Debug)]
pub struct UnknownFields {
    pub fields: Vec<UnknownField>,
}

impl View for UnknownFields {
    type V = Seq<(u32, UnknownValuesModel)>;

    open spec fn view(&self) -> Seq<(u32, UnknownValuesModel)> {
        Seq::new(self.fields@.len(), |i: int| (self.fields@[i].number, self.fields@[i].values@))
    }
}

/// Each field number occurs once.
pub open spec fn numbers_unique(fs: Seq<(u32, UnknownValuesModel)>) -> bool {
    forall|i: int, j: int| 0 <= i < j < fs.len() ==> fs[i].0 != fs[j].0
}

/// `fs` with `v` added to the values of field `number`, which comes last
/// where it is new.
pub open spec fn add_unknown(fs: Seq<(u32, UnknownValuesModel)>, number: u32, v: UnknownValueModel) -> Seq<(u32, UnknownValuesModel)> {
    if exists|i: int| 0 <= i < fs.len() && fs[i].0 == number {
        let i = choose|i: int| 0 <= i < fs.len() && fs[i].0 == number;
        fs.update(i, (number, add_value(fs[i].1, v)))
    } else {
        fs.push((number, add_value(no_values(), v)))
    }
}

impl UnknownValues {
    /// No values.
    pub fn new() -> (r: UnknownValues)
        ensures
            r@ == no_values(),
    {
        let r = UnknownValues {
            fixed32: Vec::new(),
            fixed64: Vec::new(),
            varint: Vec::new(),
            length_delimited: Vec::new(),
        };
        assert(r@.length_delimited =~= Seq::<Seq<u8>>::empty());
        r
    }

    /// A copy with the same content.
    pub fn copy(&self) -> (r: UnknownValues)
        ensures
            r@ == self@,
    {
        let fixed32 = self.fixed32.clone();
        let fixed64 = self.fixed64.clone();
        let varint = self.varint.clone();
        assert(fixed32@ =~= self.fixed32@);
        assert(fixed64@ =~= self.fixed64@);
        assert(varint@ =~= self.varint@);
        let mut length_delimited: Vec<Vec<u8>> = Vec::new();
        let mut k: usize = 0;
        while k < self.length_delimited.len()
            invariant
                k <= self.length_delimited@.len(),
                length_delimited@.len() == k,
                forall|j: int| 0 <= j < k ==> #[trigger] length_delimited@[j]@ == self.length_delimited@[j]@,
            decreases self.length_delimited@.len() - k,
        {
            let b = self.length_delimited[k].clone();
            assert(b@ =~= self.length_delimited@[k as int]@);
            length_delimited.push(b);
            k = k + 1;
        }
        let r = UnknownValues { fixed32, fixed64, varint, length_delimited };
        assert(r@.length_delimited =~= self@.length_delimited);
        r
    }

    /// Adds `v` after the values of its wire type.
    pub fn add_value(&mut self, v: UnknownValue)
        ensures
            final(self)@ == add_value(old(self)@, v@),
    {
        match v {
            UnknownValue::Fixed32(x) => self.fixed32.push(x),
            UnknownValue::Fixed64(x) => self.fixed64.push(x),
            UnknownValue::Varint(x) => self.varint.push(x),
            UnknownValue::LengthDelimited(b) => {
                let ghost bv = b@;
                self.length_delimited.push(b);
                assert(self@.length_delimited =~= old(self)@.length_delimited.push(bv));
            },
        }
    }
}

impl UnknownFields {
    /// No undeclared fields.
    pub fn new() -> (r: UnknownFields)
        ensures
            r@ == Seq::<(u32, UnknownValuesModel)>::empty(),
    {
        let r = UnknownFields { fields: Vec::new() };
        assert(r@ =~= Seq::<(u32, UnknownValuesModel)>::empty());
        r
    }

    /// A copy with the same content.
    pub fn copy(&self) -> (r: UnknownFields)
        ensures
            r@ == self@,
    {
        let mut fields: Vec<UnknownField> = Vec::new();
        let mut i: usize = 0;
        while i < self.fields.len()
            invariant
                i <= self.fields@.len(),
                fields@.len() == i,
                forall|j: int|
                    0 <= j < i ==> #[trigger] fields@[j].number == self.fields@[j].number && fields@[j].values@
                        == self.fields@[j].values@,
            decreases self.fields@.len() - i,
        {
            let entry = &self.fields[i];
            fields.push(UnknownField { number: entry.number, values: entry.values.copy() });
            i = i + 1;
        }
        let r = UnknownFields { fields };
        assert(r@ =~= self@);
        r
    }

    /// Adds `v` to the values of field `number`.
    pub fn add_value(&mut self, number: u32, v: UnknownValue)
        requires
            numbers_unique(old(self)@),
        ensures
            final(self)@ == add_unknown(old(self)@, number, v@),
            numbers_unique(final(self)@),
    {
        let ghost fs = self@;
        let ghost vm = v@;
        let mut i: usize = 0;
        while i < self.fields.len()
            invariant
                i <= self.fields@.len(),
                self@ == fs,
                fs == old(self)@,
                vm == v@,
                numbers_unique(fs),
                forall|k: int| 0 <= k < i ==> fs[k].0 != number,
            decreases self.fields@.len() - i,
        {
            if self.fields[i].number == number {
                let ghost before = self.fields@;
                let mut entry = self.fields.remove(i);
                let ghost orig = entry;
                assert(orig == before[i as int]);
                assert(fs[i as int] == (before[i as int].number, before[i as int].values@));
                assert(vm == v@);
                entry.values.add_value(v);
                let ghost updated = entry;
                assert(updated.number == number);
                assert(updated.values@ == add_value(fs[i as int].1, vm));
                self.fields.insert(i, entry);
                assert(self.fields@ =~= before.update(i as int, updated));
                proof {
                    assert(fs[i as int].0 == number);
                    let j = choose|j: int| 0 <= j < fs.len() && fs[j].0 == number;
                    assert(j == i as int);
                    assert(self@ =~= fs.update(i as int, (number, add_value(fs[i as int].1, vm))));
                    assert(add_unknown(fs, number, vm) == fs.update(i as int, (number, add_value(fs[i as int].1, vm))));
                }
                return;
            }
            i = i + 1;
        }
        let mut values = UnknownValues::new();
        values.add_value(v);
        self.fields.push(UnknownField { number, values });
        assert(self@ =~= fs.push((number, add_value(no_values(), vm))));
    }
}

/// `s` with the value, if any, at the position after reading a field that the
/// message does not declare: a group is skipped, another value is kept.
pub open spec fn unknown_or_skip(
    s: Seq<u8>,
    pos: int,
    limit: int,
    number: u32,
    wire_type: u32,
    fs: Seq<(u32, UnknownValuesModel)>,
) -> Result<(Seq<(u32, UnknownValuesModel)>, int), WireError> {
    if wire_type == WIRE_START_GROUP {
        match skip_group(s, pos, limit) {
            Ok(n) => Ok((fs, n)),
            Err(e) => Err(e),
        }
    } else {
        match parse_unknown(s, pos, limit, wire_type) {
            Ok((v, n)) => Ok((add_unknown(fs, number, v), n)),
            Err(e) => Err(e),
        }
    }
}

/// Reads a field that the message does not declare into `fields`, or skips
/// it where it is a group; gives the position after it. `fields` is left
/// unchanged where the read fails.
pub fn read_unknown_or_skip_group(
    s: &[u8],
    pos: usize,
    limit: u64,
    number: u32,
    wire_type: u32,
    fields: &mut UnknownFields,
) -> (r: Result<usize, WireError>)
    requires
        pos <= read_end(s@, limit as int),
        numbers_unique(old(fields)@),
    ensures
        numbers_unique(final(fields)@),
        match r {
            Ok(n) => unknown_or_skip(s@, pos as int, limit as int, number, wire_type, old(fields)@)
                == Ok::<(Seq<(u32, UnknownValuesModel)>, int), WireError>((final(fields)@, n as int)),
            Err(e) => unknown_or_skip(s@, pos as int, limit as int, number, wire_type, old(fields)@)
                == Err::<(Seq<(u32, UnknownValuesModel)>, int), WireError>(e) && final(fields)@ == old(fields)@,
        },
{
    if wire_type == WIRE_START_GROUP {
        read_skip_group(s, pos, limit)
    } else {
        let (v, n) = read_unknown(s, pos, limit, wire_type)?;
        fields.add_value(number, v);
        Ok(n)
    }
}

/// The bytes of each item of `xs`, one after the other.
pub open spec fn flat<A>(xs: Seq<A>, f: spec_fn(A) -> Seq<u8>) -> Seq<u8>
    decreases xs.len(),
{
    if xs.len() == 0 {
        Seq::empty()
    } else {
        flat(xs.drop_last(), f) + f(xs.last())
    }
}

/// One more item of `xs`.
pub proof fn lemma_flat_step<A>(xs: Seq<A>, f: spec_fn(A) -> Seq<u8>, k: int)
    requires
        0 <= k < xs.len(),
    ensures
        flat(xs.subrange(0, k + 1), f) == flat(xs.subrange(0, k), f) + f(xs[k]),
{
    assert(xs.subrange(0, k + 1).drop_last() =~= xs.subrange(0, k));
}

/// All of `xs`, and none of it.
pub proof fn lemma_flat_ends<A>(xs: Seq<A>, f: spec_fn(A) -> Seq<u8>)
    ensures
        flat(xs.subrange(0, xs.len() as int), f) == flat(xs, f),
        flat(xs.subrange(0, 0), f) == Seq::<u8>::empty(),
{
    assert(xs.subrange(0, xs.len() as int) =~= xs);
}

/// A shorter prefix has no more bytes.
pub proof fn lemma_flat_prefix_len<A>(xs: Seq<A>, f: spec_fn(A) -> Seq<u8>, i: int, j: int)
    requires
        0 <= i <= j <= xs.len(),
    ensures
        flat(xs.subrange(0, i), f).len() <= flat(xs.subrange(0, j), f).len(),
    decreases j - i,
{
    if i < j {
        lemma_flat_step(xs, f, j - 1);
        lemma_flat_prefix_len(xs, f, i, j - 1);
    }
}

/// The encoding of a 32-bit value of field `n`.
pub open spec fn fixed32_item(n: nat) -> spec_fn(u32) -> Seq<u8> {
    |x: u32| tag(n, 5) + le_bytes(x as nat, 4)
}

/// The encoding of a 64-bit value of field `n`.
pub open spec fn fixed64_item(n: nat) -> spec_fn(u64) -> Seq<u8> {
    |x: u64| tag(n, 1) + le_bytes(x as nat, 8)
}

/// The encoding of a varint value of field `n`.
pub open spec fn varint_item(n: nat) -> spec_fn(u64) -> Seq<u8> {
    |x: u64| tag(n, 0) + varint(x as nat)
}

/// The encoding of a length-delimited value of field `n`.
pub open spec fn len_item(n: nat) -> spec_fn(Seq<u8>) -> Seq<u8> {
    |b: Seq<u8>| len_field(n, b)
}

/// The encoding of the values of field `n`: the 32-bit ones, the 64-bit
/// ones, the varints, then the length-delimited ones.
pub open spec fn values_bytes(n: nat, vs: UnknownValuesModel) -> Seq<u8> {
    flat(vs.fixed32, fixed32_item(n)) + flat(vs.fixed64, fixed64_item(n)) + flat(vs.varint, varint_item(n))
        + flat(vs.length_delimited, len_item(n))
}

/// The encoding of one undeclared field with its values.
pub open spec fn entry_item() -> spec_fn((u32, UnknownValuesModel)) -> Seq<u8> {
    |e: (u32, UnknownValuesModel)| values_bytes(e.0 as nat, e.1)
}

/// The encoding of the undeclared fields, field by field.
pub open spec fn unknown_bytes(fs: Seq<(u32, UnknownValuesModel)>) -> Seq<u8> {
    flat(fs, entry_item())
}

/// Undeclared fields that can be written: each number once and a valid field
/// number, each length-delimited value shorter than 2^32 bytes.
pub open spec fn unknown_wf(fs: Seq<(u32, UnknownValuesModel)>) -> bool {
    &&& numbers_unique(fs)
    &&& forall|i: int| 0 <= i < fs.len() ==> 0 < #[trigger] fs[i].0 < 0x2000_0000
    &&& forall|i: int, k: int|
        0 <= i < fs.len() && 0 <= k < fs[i].1.length_delimited.len() ==> #[trigger] fs[i].1.length_delimited[k].len()
            < 0x1_0000_0000
}

/// Appends the values of field `number`.
fn push_values(out: &mut Vec<u8>, number: u32, vs: &UnknownValues)
    requires
        0 < number < 0x2000_0000,
        forall|k: int| 0 <= k < vs@.length_delimited.len() ==> #[trigger] vs@.length_delimited[k].len() < 0x1_0000_0000,
    ensures
        final(out)@ == old(out)@ + values_bytes(number as nat, vs@),
{
    let ghost n = number as nat;
    let ghost m = vs@;
    let ghost start = out@;
    let mut k: usize = 0;
    proof {
        lemma_flat_ends(m.fixed32, fixed32_item(n));
    }
    while k < vs.fixed32.len()
        invariant
            k <= m.fixed32.len(),
            m == vs@,
            n == number,
            0 < number < 0x2000_0000,
            out@ == start + flat(m.fixed32.subrange(0, k as int), fixed32_item(n)),
        decreases m.fixed32.len() - k,
    {
        proof {
            lemma_flat_step(m.fixed32, fixed32_item(n), k as int);
        }
        push_tag(out, number, WIRE_FIXED32);
        push_fixed32(out, vs.fixed32[k]);
        assert(out@ =~= start + flat(m.fixed32.subrange(0, k + 1), fixed32_item(n)));
        k = k + 1;
    }
    proof {
        lemma_flat_ends(m.fixed32, fixed32_item(n));
        lemma_flat_ends(m.fixed64, fixed64_item(n));
    }
    let ghost start = out@;
    let mut k: usize = 0;
    while k < vs.fixed64.len()
        invariant
            k <= m.fixed64.len(),
            m == vs@,
            n == number,
            0 < number < 0x2000_0000,
            out@ == start + flat(m.fixed64.subrange(0, k as int), fixed64_item(n)),
        decreases m.fixed64.len() - k,
    {
        proof {
            lemma_flat_step(m.fixed64, fixed64_item(n), k as int);
        }
        push_tag(out, number, WIRE_FIXED64);
        push_fixed64(out, vs.fixed64[k]);
        assert(out@ =~= start + flat(m.fixed64.subrange(0, k + 1), fixed64_item(n)));
        k = k + 1;
    }
    proof {
        lemma_flat_ends(m.fixed64, fixed64_item(n));
        lemma_flat_ends(m.varint, varint_item(n));
    }
    let ghost start = out@;
    let mut k: usize = 0;
    while k < vs.varint.len()
        invariant
            k <= m.varint.len(),
            m == vs@,
            n == number,
            0 < number < 0x2000_0000,
            out@ == start + flat(m.varint.subrange(0, k as int), varint_item(n)),
        decreases m.varint.len() - k,
    {
        proof {
            lemma_flat_step(m.varint, varint_item(n), k as int);
        }
        push_tag(out, number, WIRE_VARINT);
        push_varint(out, vs.varint[k]);
        assert(out@ =~= start + flat(m.varint.subrange(0, k + 1), varint_item(n)));
        k = k + 1;
    }
    proof {
        lemma_flat_ends(m.varint, varint_item(n));
        lemma_flat_ends(m.length_delimited, len_item(n));
    }
    let ghost start = out@;
    let mut k: usize = 0;
    while k < vs.length_delimited.len()
        invariant
            k <= m.length_delimited.len(),
            m == vs@,
            n == number,
            0 < number < 0x2000_0000,
            forall|j: int| 0 <= j < m.length_delimited.len() ==> #[trigger] m.length_delimited[j].len() < 0x1_0000_0000,
            out@ == start + flat(m.length_delimited.subrange(0, k as int), len_item(n)),
        decreases m.length_delimited.len() - k,
    {
        proof {
            lemma_flat_step(m.length_delimited, len_item(n), k as int);
        }
        assert(vs.length_delimited[k as int]@ == m.length_delimited[k as int]);
        push_len_field(out, number, vs.length_delimited[k].as_slice());
        assert(out@ =~= start + flat(m.length_delimited.subrange(0, k + 1), len_item(n)));
        k = k + 1;
    }
    proof {
        lemma_flat_ends(m.length_delimited, len_item(n));
    }
    assert(out@ =~= old(out)@ + values_bytes(n, m));
}

/// Appends the undeclared fields.
pub fn push_unknown_fields(out: &mut Vec<u8>, fields: &UnknownFields)
    requires
        unknown_wf(fields@),
    ensures
        final(out)@ == old(out)@ + unknown_bytes(fields@),
{
    let ghost fs = fields@;
    let ghost start = out@;
    let mut i: usize = 0;
    proof {
        lemma_flat_ends(fs, entry_item());
    }
    while i < fields.fields.len()
        invariant
            i <= fs.len(),
            fs == fields@,
            unknown_wf(fs),
            out@ == start + flat(fs.subrange(0, i as int), entry_item()),
        decreases fs.len() - i,
    {
        proof {
            lemma_flat_step(fs, entry_item(), i as int);
        }
        let entry = &fields.fields[i];
        assert(fs[i as int] == (entry.number, entry.values@));
        assert forall|k: int| 0 <= k < entry.values@.length_delimited.len() implies #[trigger] entry.values@.length_delimited[k].len()
            < 0x1_0000_0000 by {
            assert(fs[i as int].1.length_delimited[k].len() < 0x1_0000_0000);
        }
        push_values(out, entry.number, &entry.values);
        assert(out@ =~= start + flat(fs.subrange(0, i + 1), entry_item()));
        i = i + 1;
    }
    proof {
        lemma_flat_ends(fs, entry_item());
    }
}

proof fn lemma_le_bytes_len(v: nat, n: nat)
    ensures
        le_bytes(v, n).len() == n,
    decreases n,
{
    if n > 0 {
        lemma_le_bytes_len(v / 256, (n - 1) as nat);
    }
}

/// The length of the encoding of the values of field `number`.
fn values_size(number: u32, vs: &UnknownValues) -> (r: u64)
    requires
        0 < number < 0x2000_0000,
        values_bytes(number as nat, vs@).len() <= 0xffff_ffff,
    ensures
        r == values_bytes(number as nat, vs@).len(),
{
    let ghost n = number as nat;
    let ghost m = vs@;
    let ghost total = values_bytes(n, m).len();
    let t_fixed32: u64 = varint_size((number as u64) * 8 + 5) as u64;
    let t_fixed64: u64 = varint_size((number as u64) * 8 + 1) as u64;
    let t_varint: u64 = varint_size((number as u64) * 8) as u64;
    let mut r: u64 = 0;
    let mut k: usize = 0;
    proof {
        lemma_flat_ends(m.fixed32, fixed32_item(n));
    }
    while k < vs.fixed32.len()
        invariant
            k <= m.fixed32.len(),
            m == vs@,
            n == number,
            total == values_bytes(n, m).len(),
            total <= 0xffff_ffff,
            t_fixed32 == tag(n, 5).len(),
            r == flat(m.fixed32.subrange(0, k as int), fixed32_item(n)).len(),
        decreases m.fixed32.len() - k,
    {
        proof {
            lemma_flat_step(m.fixed32, fixed32_item(n), k as int);
            lemma_flat_prefix_len(m.fixed32, fixed32_item(n), k + 1, m.fixed32.len() as int);
            lemma_flat_ends(m.fixed32, fixed32_item(n));
            lemma_le_bytes_len(m.fixed32[k as int] as nat, 4);
        }
        r = r + t_fixed32 + 4;
        k = k + 1;
    }
    proof {
        lemma_flat_ends(m.fixed32, fixed32_item(n));
        lemma_flat_ends(m.fixed64, fixed64_item(n));
    }
    let ghost base = r as int;
    let mut k: usize = 0;
    while k < vs.fixed64.len()
        invariant
            k <= m.fixed64.len(),
            m == vs@,
            n == number,
            total == values_bytes(n, m).len(),
            total <= 0xffff_ffff,
            base == flat(m.fixed32, fixed32_item(n)).len(),
            t_fixed64 == tag(n, 1).len(),
            r == base + flat(m.fixed64.subrange(0, k as int), fixed64_item(n)).len(),
        decreases m.fixed64.len() - k,
    {
        proof {
            lemma_flat_step(m.fixed64, fixed64_item(n), k as int);
            lemma_flat_prefix_len(m.fixed64, fixed64_item(n), k + 1, m.fixed64.len() as int);
            lemma_flat_ends(m.fixed64, fixed64_item(n));
            lemma_le_bytes_len(m.fixed64[k as int] as nat, 8);
        }
        r = r + t_fixed64 + 8;
        k = k + 1;
    }
    proof {
        lemma_flat_ends(m.fixed64, fixed64_item(n));
        lemma_flat_ends(m.varint, varint_item(n));
    }
    let ghost base = r as int;
    let mut k: usize = 0;
    while k < vs.varint.len()
        invariant
            k <= m.varint.len(),
            m == vs@,
            n == number,
            total == values_bytes(n, m).len(),
            total <= 0xffff_ffff,
            base == flat(m.fixed32, fixed32_item(n)).len() + flat(m.fixed64, fixed64_item(n)).len(),
            t_varint == tag(n, 0).len(),
            r == base + flat(m.varint.subrange(0, k as int), varint_item(n)).len(),
        decreases m.varint.len() - k,
    {
        proof {
            lemma_flat_step(m.varint, varint_item(n), k as int);
            lemma_flat_prefix_len(m.varint, varint_item(n), k + 1, m.varint.len() as int);
            lemma_flat_ends(m.varint, varint_item(n));
        }
        r = r + t_varint + varint_size(vs.varint[k]) as u64;
        k = k + 1;
    }
    proof {
        lemma_flat_ends(m.varint, varint_item(n));
        lemma_flat_ends(m.length_delimited, len_item(n));
    }
    let ghost base = r as int;
    let mut k: usize = 0;
    while k < vs.length_delimited.len()
        invariant
            k <= m.length_delimited.len(),
            m == vs@,
            n == number,
            0 < number < 0x2000_0000,
            total == values_bytes(n, m).len(),
            total <= 0xffff_ffff,
            base == flat(m.fixed32, fixed32_item(n)).len() + flat(m.fixed64, fixed64_item(n)).len() + flat(
                m.varint,
                varint_item(n),
            ).len(),
            r == base + flat(m.length_delimited.subrange(0, k as int), len_item(n)).len(),
        decreases m.length_delimited.len() - k,
    {
        proof {
            lemma_flat_step(m.length_delimited, len_item(n), k as int);
            lemma_flat_prefix_len(m.length_delimited, len_item(n), k + 1, m.length_delimited.len() as int);
            lemma_flat_ends(m.length_delimited, len_item(n));
        }
        assert(vs.length_delimited[k as int]@ == m.length_delimited[k as int]);
        let len = vs.length_delimited[k].len();
        let sz = len_field_size(number, len);
        assert(sz == len_field(n, m.length_delimited[k as int]).len());
        r = r + sz;
        k = k + 1;
    }
    proof {
        lemma_flat_ends(m.length_delimited, len_item(n));
    }
    r
}

/// The length of the encoding of the undeclared fields.
pub fn unknown_fields_size(fields: &UnknownFields) -> (r: u32)
    requires
        unknown_wf(fields@),
        unknown_bytes(fields@).len() <= 0xffff_ffff,
    ensures
        r == unknown_bytes(fields@).len(),
{
    let ghost fs = fields@;
    let mut r: u64 = 0;
    let mut i: usize = 0;
    proof {
        lemma_flat_ends(fs, entry_item());
    }
    while i < fields.fields.len()
        invariant
            i <= fs.len(),
            fs == fields@,
            unknown_wf(fs),
            unknown_bytes(fs).len() <= 0xffff_ffff,
            r == flat(fs.subrange(0, i as int), entry_item()).len(),
        decreases fs.len() - i,
    {
        proof {
            lemma_flat_step(fs, entry_item(), i as int);
            lemma_flat_prefix_len(fs, entry_item(), i + 1, fs.len() as int);
            lemma_flat_ends(fs, entry_item());
        }
        let entry = &fields.fields[i];
        assert(fs[i as int] == (entry.number, entry.values@));
        r = r + values_size(entry.number, &entry.values);
        i = i + 1;
    }
    proof {
        lemma_flat_ends(fs, entry_item());
    }
    r as u32
}

// ---------------------------------------------------------------------------
// What an encoding reads back as.
/// `bytes` stands in `s` at `pos`.
pub open spec fn bytes_at(s: Seq<u8>, pos: int, bytes: Seq<u8>) -> bool {
    0 <= pos && pos + bytes.len() <= s.len() && s.subrange(pos, pos + bytes.len()) == bytes
}

/// Both halves of what stands at `pos` stand there.
pub proof fn lemma_bytes_at_split(s: Seq<u8>, pos: int, a: Seq<u8>, b: Seq<u8>)
    requires
        bytes_at(s, pos, a + b),
    ensures
        bytes_at(s, pos, a),
        bytes_at(s, pos + a.len(), b),
{
    let whole = s.subrange(pos, pos + (a + b).len());
    assert forall|k: int| 0 <= k < a.len() implies #[trigger] s.subrange(pos, pos + a.len())[k] == a[k] by {
        assert(whole[k] == s[pos + k]);
        assert((a + b)[k] == a[k]);
    }
    assert(s.subrange(pos, pos + a.len()) =~= a);
    assert forall|k: int| 0 <= k < b.len() implies #[trigger] s.subrange(pos + a.len(), pos + a.len() + b.len())[k]
        == b[k] by {
        assert(whole[a.len() + k] == s[pos + a.len() + k]);
        assert((a + b)[a.len() + k] == b[k]);
    }
    assert(s.subrange(pos + a.len(), pos + a.len() + b.len()) =~= b);
}

/// A tag reads back as its field number and wire type.
pub proof fn lemma_parse_tag_encoding(s: Seq<u8>, pos: int, end: int, field: u32, wire_type: u32)
    requires
        0 < field < 0x2000_0000,
        wire_type <= 5,
        bytes_at(s, pos, tag(field as nat, wire_type as nat)),
        pos + tag(field as nat, wire_type as nat).len() <= end,
    ensures
        parse_tag(s, pos, end) == Ok::<(u32, u32, int), WireError>(
            (field, wire_type, pos + tag(field as nat, wire_type as nat).len()),
        ),
{
    let v: u64 = ((field as u64) * 8 + (wire_type as u64)) as u64;
    lemma_parse_varint_encoding(s, pos, end, v);
    let t = (v as nat % two_pow32()) as u32;
    assert(t == v);
    assert(t % 8 == wire_type);
    assert(t / 8 == field);
}

proof fn lemma_le_value_encoding(s: Seq<u8>, pos: int, v: nat, n: nat)
    requires
        v < pow_base256(n),
        bytes_at(s, pos, le_bytes(v, n)),
    ensures
        le_value(s, pos, n) == v,
    decreases n,
{
    lemma_le_bytes_len(v, n);
    if n > 0 {
        let rest = le_bytes(v / 256, (n - 1) as nat);
        assert(le_bytes(v, n) == seq![(v % 256) as u8] + rest);
        lemma_bytes_at_split(s, pos, seq![(v % 256) as u8], rest);
        assert(s[pos] == (v % 256) as u8) by {
            assert(s.subrange(pos, pos + 1)[0] == s[pos]);
        }
        assert(v / 256 < pow_base256((n - 1) as nat)) by (nonlinear_arith)
            requires
                v < pow_base256(n),
                pow_base256(n) == 256 * pow_base256((n - 1) as nat),
        ;
        lemma_le_value_encoding(s, pos + 1, v / 256, (n - 1) as nat);
    }
}

/// The wire type of a value.
pub open spec fn value_wire_type(v: UnknownValueModel) -> u32 {
    match v {
        UnknownValueModel::Fixed32(_) => WIRE_FIXED32,
        UnknownValueModel::Fixed64(_) => WIRE_FIXED64,
        UnknownValueModel::Varint(_) => WIRE_VARINT,
        UnknownValueModel::LengthDelimited(_) => WIRE_LEN,
    }
}

/// The encoding of a value of field `n` after its tag.
pub open spec fn value_payload(v: UnknownValueModel) -> Seq<u8> {
    match v {
        UnknownValueModel::Fixed32(x) => le_bytes(x as nat, 4),
        UnknownValueModel::Fixed64(x) => le_bytes(x as nat, 8),
        UnknownValueModel::Varint(x) => varint(x as nat),
        UnknownValueModel::LengthDelimited(b) => varint(b.len()) + b,
    }
}

/// The encoding of one undeclared value with its field number.
pub open spec fn unknown_item(e: (u32, UnknownValueModel)) -> Seq<u8> {
    tag(e.0 as nat, value_wire_type(e.1) as nat) + value_payload(e.1)
}

/// A value that can be written: a valid field number and a length that 32
/// bits hold.
pub open spec fn item_wf(e: (u32, UnknownValueModel)) -> bool {
    &&& 0 < e.0 < 0x2000_0000
    &&& (e.1 matches UnknownValueModel::LengthDelimited(b) ==> b.len() < 0x1_0000_0000)
}

/// An undeclared value reads back, and is added to the fields read so far.
pub proof fn lemma_read_unknown_item(
    s: Seq<u8>,
    pos: int,
    limit: int,
    e: (u32, UnknownValueModel),
    fs: Seq<(u32, UnknownValuesModel)>,
)
    requires
        item_wf(e),
        bytes_at(s, pos, unknown_item(e)),
        pos + unknown_item(e).len() <= read_end(s, limit),
    ensures
        ({
            let t = tag(e.0 as nat, value_wire_type(e.1) as nat);
            &&& parse_tag(s, pos, read_end(s, limit)) == Ok::<(u32, u32, int), WireError>(
                (e.0, value_wire_type(e.1), pos + t.len()),
            )
            &&& unknown_or_skip(s, pos + t.len(), limit, e.0, value_wire_type(e.1), fs) == Ok::<
                (Seq<(u32, UnknownValuesModel)>, int),
                WireError,
            >((add_unknown(fs, e.0, e.1), pos + unknown_item(e).len()))
        }),
{
    let t = tag(e.0 as nat, value_wire_type(e.1) as nat);
    let pay = value_payload(e.1);
    let end = read_end(s, limit);
    lemma_bytes_at_split(s, pos, t, pay);
    lemma_parse_tag_encoding(s, pos, end, e.0, value_wire_type(e.1));
    let q = pos + t.len();
    reveal_with_fuel(pow_base256, 9);
    match e.1 {
        UnknownValueModel::Fixed32(x) => {
            lemma_le_bytes_len(x as nat, 4);
            lemma_le_value_encoding(s, q, x as nat, 4);
        },
        UnknownValueModel::Fixed64(x) => {
            lemma_le_bytes_len(x as nat, 8);
            lemma_le_value_encoding(s, q, x as nat, 8);
        },
        UnknownValueModel::Varint(x) => {
            lemma_parse_varint_encoding(s, q, end, x);
        },
        UnknownValueModel::LengthDelimited(b) => {
            let lv = varint(b.len());
            lemma_bytes_at_split(s, q, lv, b);
            lemma_parse_varint_encoding(s, q, end, b.len() as u64);
            assert(s.subrange(q + lv.len(), q + lv.len() + b.len()) == b);
        },
    }
}

/// An undeclared 32-bit value of field `n`.
pub open spec fn fixed32_entry(n: u32) -> spec_fn(u32) -> (u32, UnknownValueModel) {
    |x: u32| (n, UnknownValueModel::Fixed32(x))
}

/// An undeclared 64-bit value of field `n`.
pub open spec fn fixed64_entry(n: u32) -> spec_fn(u64) -> (u32, UnknownValueModel) {
    |x: u64| (n, UnknownValueModel::Fixed64(x))
}

/// An undeclared varint value of field `n`.
pub open spec fn varint_entry(n: u32) -> spec_fn(u64) -> (u32, UnknownValueModel) {
    |x: u64| (n, UnknownValueModel::Varint(x))
}

/// An undeclared length-delimited value of field `n`.
pub open spec fn len_entry(n: u32) -> spec_fn(Seq<u8>) -> (u32, UnknownValueModel) {
    |b: Seq<u8>| (n, UnknownValueModel::LengthDelimited(b))
}

/// The values of field `n` with their number, in the order written.
pub open spec fn entry_items(n: u32, vs: UnknownValuesModel) -> Seq<(u32, UnknownValueModel)> {
    vs.fixed32.map_values(fixed32_entry(n)) + vs.fixed64.map_values(fixed64_entry(n)) + vs.varint.map_values(
        varint_entry(n),
    ) + vs.length_delimited.map_values(len_entry(n))
}

/// All undeclared values with their numbers, in the order written.
pub open spec fn unknown_items(fs: Seq<(u32, UnknownValuesModel)>) -> Seq<(u32, UnknownValueModel)>
    decreases fs.len(),
{
    if fs.len() == 0 {
        Seq::empty()
    } else {
        unknown_items(fs.drop_last()) + entry_items(fs.last().0, fs.last().1)
    }
}

/// `fs` with each of `items` added in turn.
pub open spec fn add_all(fs: Seq<(u32, UnknownValuesModel)>, items: Seq<(u32, UnknownValueModel)>) -> Seq<
    (u32, UnknownValuesModel),
>
    decreases items.len(),
{
    if items.len() == 0 {
        fs
    } else {
        add_unknown(add_all(fs, items.drop_last()), items.last().0, items.last().1)
    }
}

/// `st` with the value of each of `items` added in turn.
pub open spec fn fold_values(st: UnknownValuesModel, items: Seq<(u32, UnknownValueModel)>) -> UnknownValuesModel
    decreases items.len(),
{
    if items.len() == 0 {
        st
    } else {
        add_value(fold_values(st, items.drop_last()), items.last().1)
    }
}

/// The encoding of one undeclared value, as a function.
pub open spec fn unknown_item_fn() -> spec_fn((u32, UnknownValueModel)) -> Seq<u8> {
    |e: (u32, UnknownValueModel)| unknown_item(e)
}

/// Two runs of items, one after the other.
pub proof fn lemma_flat_append<A>(a: Seq<A>, b: Seq<A>, f: spec_fn(A) -> Seq<u8>)
    ensures
        flat(a + b, f) == flat(a, f) + flat(b, f),
    decreases b.len(),
{
    if b.len() == 0 {
        assert(a + b =~= a);
        assert(flat(a, f) + flat(b, f) =~= flat(a, f));
    } else {
        assert((a + b).drop_last() =~= a + b.drop_last());
        assert((a + b).last() == b.last());
        lemma_flat_append(a, b.drop_last(), f);
        assert(flat(a + b, f) =~= flat(a, f) + flat(b, f));
    }
}

/// Items mapped first and encoded after, encoded at once.
pub proof fn lemma_flat_map<A, B>(xs: Seq<A>, g: spec_fn(A) -> B, f: spec_fn(B) -> Seq<u8>, h: spec_fn(A) -> Seq<u8>)
    requires
        forall|x: A| #[trigger] f(g(x)) == h(x),
    ensures
        flat(xs.map_values(g), f) == flat(xs, h),
    decreases xs.len(),
{
    if xs.len() > 0 {
        assert(xs.map_values(g).drop_last() =~= xs.drop_last().map_values(g));
        lemma_flat_map(xs.drop_last(), g, f, h);
        assert(f(g(xs.last())) == h(xs.last()));
    }
}

/// The encoding of the values of a field, value by value.
pub proof fn lemma_values_bytes_items(n: u32, vs: UnknownValuesModel)
    ensures
        values_bytes(n as nat, vs) == flat(entry_items(n, vs), unknown_item_fn()),
{
    let f = unknown_item_fn();
    let a = vs.fixed32.map_values(fixed32_entry(n));
    let b = vs.fixed64.map_values(fixed64_entry(n));
    let c = vs.varint.map_values(varint_entry(n));
    let d = vs.length_delimited.map_values(len_entry(n));
    lemma_flat_append(a + b + c, d, f);
    lemma_flat_append(a + b, c, f);
    lemma_flat_append(a, b, f);
    assert forall|x: u32| #[trigger] f(fixed32_entry(n)(x)) == fixed32_item(n as nat)(x) by {}
    assert forall|x: u64| #[trigger] f(fixed64_entry(n)(x)) == fixed64_item(n as nat)(x) by {}
    assert forall|x: u64| #[trigger] f(varint_entry(n)(x)) == varint_item(n as nat)(x) by {}
    assert forall|x: Seq<u8>| #[trigger] f(len_entry(n)(x)) == len_item(n as nat)(x) by {
        assert(len_field(n as nat, x) =~= tag(n as nat, 2) + (varint(x.len()) + x));
    }
    lemma_flat_map(vs.fixed32, fixed32_entry(n), f, fixed32_item(n as nat));
    lemma_flat_map(vs.fixed64, fixed64_entry(n), f, fixed64_item(n as nat));
    lemma_flat_map(vs.varint, varint_entry(n), f, varint_item(n as nat));
    lemma_flat_map(vs.length_delimited, len_entry(n), f, len_item(n as nat));
}

/// The encoding of the undeclared fields, value by value.
pub proof fn lemma_unknown_bytes_items(fs: Seq<(u32, UnknownValuesModel)>)
    ensures
        unknown_bytes(fs) == flat(unknown_items(fs), unknown_item_fn()),
    decreases fs.len(),
{
    if fs.len() > 0 {
        lemma_unknown_bytes_items(fs.drop_last());
        lemma_values_bytes_items(fs.last().0, fs.last().1);
        lemma_flat_append(unknown_items(fs.drop_last()), entry_items(fs.last().0, fs.last().1), unknown_item_fn());
    }
}

/// Adding two runs of items, one after the other.
pub proof fn lemma_add_all_append(fs: Seq<(u32, UnknownValuesModel)>, a: Seq<(u32, UnknownValueModel)>, b: Seq<(u32, UnknownValueModel)>)
    ensures
        add_all(fs, a + b) == add_all(add_all(fs, a), b),
    decreases b.len(),
{
    if b.len() == 0 {
        assert(a + b =~= a);
    } else {
        assert((a + b).drop_last() =~= a + b.drop_last());
        assert((a + b).last() == b.last());
        lemma_add_all_append(fs, a, b.drop_last());
    }
}

/// Folding two runs of values, one after the other.
pub proof fn lemma_fold_values_append(st: UnknownValuesModel, a: Seq<(u32, UnknownValueModel)>, b: Seq<(u32, UnknownValueModel)>)
    ensures
        fold_values(st, a + b) == fold_values(fold_values(st, a), b),
    decreases b.len(),
{
    if b.len() == 0 {
        assert(a + b =~= a);
    } else {
        assert((a + b).drop_last() =~= a + b.drop_last());
        assert((a + b).last() == b.last());
        lemma_fold_values_append(st, a, b.drop_last());
    }
}

proof fn lemma_fold_fixed32(st: UnknownValuesModel, n: u32, xs: Seq<u32>)
    ensures
        fold_values(st, xs.map_values(fixed32_entry(n))) == (UnknownValuesModel { fixed32: st.fixed32 + xs, ..st }),
    decreases xs.len(),
{
    if xs.len() == 0 {
        assert(st.fixed32 + xs =~= st.fixed32);
    } else {
        assert(xs.map_values(fixed32_entry(n)).drop_last() =~= xs.drop_last().map_values(fixed32_entry(n)));
        lemma_fold_fixed32(st, n, xs.drop_last());
        assert((st.fixed32 + xs.drop_last()).push(xs.last()) =~= st.fixed32 + xs);
    }
}

proof fn lemma_fold_fixed64(st: UnknownValuesModel, n: u32, xs: Seq<u64>)
    ensures
        fold_values(st, xs.map_values(fixed64_entry(n))) == (UnknownValuesModel { fixed64: st.fixed64 + xs, ..st }),
    decreases xs.len(),
{
    if xs.len() == 0 {
        assert(st.fixed64 + xs =~= st.fixed64);
    } else {
        assert(xs.map_values(fixed64_entry(n)).drop_last() =~= xs.drop_last().map_values(fixed64_entry(n)));
        lemma_fold_fixed64(st, n, xs.drop_last());
        assert((st.fixed64 + xs.drop_last()).push(xs.last()) =~= st.fixed64 + xs);
    }
}

proof fn lemma_fold_varint(st: UnknownValuesModel, n: u32, xs: Seq<u64>)
    ensures
        fold_values(st, xs.map_values(varint_entry(n))) == (UnknownValuesModel { varint: st.varint + xs, ..st }),
    decreases xs.len(),
{
    if xs.len() == 0 {
        assert(st.varint + xs =~= st.varint);
    } else {
        assert(xs.map_values(varint_entry(n)).drop_last() =~= xs.drop_last().map_values(varint_entry(n)));
        lemma_fold_varint(st, n, xs.drop_last());
        assert((st.varint + xs.drop_last()).push(xs.last()) =~= st.varint + xs);
    }
}

proof fn lemma_fold_len(st: UnknownValuesModel, n: u32, xs: Seq<Seq<u8>>)
    ensures
        fold_values(st, xs.map_values(len_entry(n))) == (UnknownValuesModel {
            length_delimited: st.length_delimited + xs,
            ..st
        }),
    decreases xs.len(),
{
    if xs.len() == 0 {
        assert(st.length_delimited + xs =~= st.length_delimited);
    } else {
        assert(xs.map_values(len_entry(n)).drop_last() =~= xs.drop_last().map_values(len_entry(n)));
        lemma_fold_len(st, n, xs.drop_last());
        assert((st.length_delimited + xs.drop_last()).push(xs.last()) =~= st.length_delimited + xs);
    }
}

/// Folding the values of a field from none gives them back.
pub proof fn lemma_fold_entry_items(n: u32, vs: UnknownValuesModel)
    ensures
        fold_values(no_values(), entry_items(n, vs)) == vs,
{
    let a = vs.fixed32.map_values(fixed32_entry(n));
    let b = vs.fixed64.map_values(fixed64_entry(n));
    let c = vs.varint.map_values(varint_entry(n));
    let d = vs.length_delimited.map_values(len_entry(n));
    lemma_fold_values_append(no_values(), a + b + c, d);
    lemma_fold_values_append(no_values(), a + b, c);
    lemma_fold_values_append(no_values(), a, b);
    lemma_fold_fixed32(no_values(), n, vs.fixed32);
    let s1 = fold_values(no_values(), a);
    lemma_fold_fixed64(s1, n, vs.fixed64);
    let s2 = fold_values(s1, b);
    lemma_fold_varint(s2, n, vs.varint);
    let s3 = fold_values(s2, c);
    lemma_fold_len(s3, n, vs.length_delimited);
    assert(Seq::<u32>::empty() + vs.fixed32 =~= vs.fixed32);
    assert(Seq::<u64>::empty() + vs.fixed64 =~= vs.fixed64);
    assert(Seq::<u64>::empty() + vs.varint =~= vs.varint);
    assert(Seq::<Seq<u8>>::empty() + vs.length_delimited =~= vs.length_delimited);
}

/// Adding a prefix of the values of a new field `n`: the field comes last
/// with those values.
proof fn lemma_add_entry_prefix(acc: Seq<(u32, UnknownValuesModel)>, n: u32, items: Seq<(u32, UnknownValueModel)>, j: int)
    requires
        numbers_unique(acc),
        forall|i: int| 0 <= i < acc.len() ==> acc[i].0 != n,
        forall|i: int| 0 <= i < items.len() ==> (#[trigger] items[i]).0 == n,
        1 <= j <= items.len(),
    ensures
        add_all(acc, items.subrange(0, j)) == acc.push((n, fold_values(no_values(), items.subrange(0, j)))),
    decreases j,
{
    let pre = items.subrange(0, j);
    let prev = items.subrange(0, j - 1);
    assert(pre.drop_last() =~= prev);
    assert(pre.last() == items[j - 1]);
    let v = items[j - 1].1;
    assert(items[j - 1].0 == n);
    assert(add_all(acc, pre) == add_unknown(add_all(acc, prev), n, v));
    assert(fold_values(no_values(), pre) == add_value(fold_values(no_values(), prev), v));
    if j == 1 {
        assert(prev =~= Seq::<(u32, UnknownValueModel)>::empty());
        assert(add_all(acc, prev) == acc);
        assert(fold_values(no_values(), prev) == no_values());
        assert(!(exists|i: int| 0 <= i < acc.len() && acc[i].0 == n));
    } else {
        lemma_add_entry_prefix(acc, n, items, j - 1);
        let cur = acc.push((n, fold_values(no_values(), prev)));
        assert(add_all(acc, prev) == cur);
        assert(cur[acc.len() as int].0 == n);
        let i = choose|i: int| 0 <= i < cur.len() && cur[i].0 == n;
        assert(i == acc.len());
        assert(cur.update(acc.len() as int, (n, add_value(cur[acc.len() as int].1, v))) =~= acc.push(
            (n, fold_values(no_values(), pre)),
        ));
    }
}

/// The undeclared fields read back from their values, where each field has
/// a value.
pub proof fn lemma_add_all_unknown_items(fs: Seq<(u32, UnknownValuesModel)>)
    requires
        numbers_unique(fs),
        forall|i: int| 0 <= i < fs.len() ==> entry_items(#[trigger] fs[i].0, fs[i].1).len() > 0,
    ensures
        add_all(Seq::empty(), unknown_items(fs)) == fs,
    decreases fs.len(),
{
    if fs.len() > 0 {
        let init = fs.drop_last();
        let (n, vs) = fs.last();
        assert(numbers_unique(init));
        assert forall|i: int| 0 <= i < init.len() implies entry_items(#[trigger] init[i].0, init[i].1).len() > 0 by {
            assert(init[i] == fs[i]);
        }
        lemma_add_all_unknown_items(init);
        lemma_add_all_append(Seq::empty(), unknown_items(init), entry_items(n, vs));
        let items = entry_items(n, vs);
        assert(entry_items(fs[fs.len() - 1].0, fs[fs.len() - 1].1).len() > 0);
        assert forall|i: int| 0 <= i < items.len() implies (#[trigger] items[i]).0 == n by {}
        assert forall|i: int| 0 <= i < init.len() implies init[i].0 != n by {
            assert(fs[i].0 != fs[fs.len() - 1].0);
        }
        lemma_add_entry_prefix(init, n, items, items.len() as int);
        assert(items.subrange(0, items.len() as int) =~= items);
        lemma_fold_entry_items(n, vs);
        assert(init.push((n, vs)) =~= fs);
    }
}

/// Undeclared fields that read back as they are: numbers past those that
/// the message declares, and a value for each.
pub open spec fn unknown_readable(fs: Seq<(u32, UnknownValuesModel)>, declared: nat) -> bool {
    forall|i: int| 0 <= i < fs.len() ==> #[trigger] fs[i].0 > declared && entry_items(fs[i].0, fs[i].1).len() > 0
}

/// Every value of valid undeclared fields can be written, and comes with a
/// number of theirs.
pub proof fn lemma_unknown_items_wf(fs: Seq<(u32, UnknownValuesModel)>, declared: nat)
    requires
        unknown_wf(fs),
        unknown_readable(fs, declared),
    ensures
        forall|k: int|
            0 <= k < unknown_items(fs).len() ==> item_wf(#[trigger] unknown_items(fs)[k]) && unknown_items(fs)[k].0
                > declared,
    decreases fs.len(),
{
    if fs.len() > 0 {
        let init = fs.drop_last();
        let (n, vs) = fs.last();
        assert(unknown_wf(init)) by {
            assert forall|i: int, k: int|
                0 <= i < init.len() && 0 <= k < init[i].1.length_delimited.len() implies #[trigger] init[i].1.length_delimited[k].len()
                < 0x1_0000_0000 by {
                assert(init[i] == fs[i]);
            }
        }
        assert(unknown_readable(init, declared)) by {
            assert forall|i: int| 0 <= i < init.len() implies #[trigger] init[i].0 > declared && entry_items(init[i].0, init[i].1).len() > 0 by {
                assert(init[i] == fs[i]);
            }
        }
        lemma_unknown_items_wf(init, declared);
        let last = fs.len() - 1;
        assert(fs[last].0 == n && fs[last].1 == vs);
        let a = vs.fixed32.map_values(fixed32_entry(n));
        let b = vs.fixed64.map_values(fixed64_entry(n));
        let c = vs.varint.map_values(varint_entry(n));
        let d = vs.length_delimited.map_values(len_entry(n));
        let e = entry_items(n, vs);
        assert forall|k: int| 0 <= k < e.len() implies item_wf(#[trigger] e[k]) && e[k].0 > declared by {
            if k >= a.len() + b.len() + c.len() {
                let j = k - a.len() - b.len() - c.len();
                assert(e[k] == d[j]);
                assert(vs.length_delimited[j].len() < 0x1_0000_0000) by {
                    assert(fs[last].1.length_delimited[j].len() < 0x1_0000_0000);
                }
            } else if k >= a.len() + b.len() {
                assert(e[k] == c[k - a.len() - b.len()]);
            } else if k >= a.len() {
                assert(e[k] == b[k - a.len()]);
            } else {
                assert(e[k] == a[k]);
            }
        }
        let all = unknown_items(fs);
        assert(all == unknown_items(init) + e);
        assert forall|k: int| 0 <= k < all.len() implies item_wf(#[trigger] all[k]) && all[k].0 > declared by {
            if k < unknown_items(init).len() {
                assert(all[k] == unknown_items(init)[k]);
            } else {
                assert(all[k] == e[k - unknown_items(init).len()]);
            }
        }
    }
}

/// The first item and the rest.
pub proof fn lemma_items_first(items: Seq<(u32, UnknownValueModel)>, fs: Seq<(u32, UnknownValuesModel)>)
    requires
        items.len() > 0,
    ensures
        flat(items, unknown_item_fn()) == unknown_item(items[0]) + flat(items.subrange(1, items.len() as int), unknown_item_fn()),
        add_all(fs, items) == add_all(add_unknown(fs, items[0].0, items[0].1), items.subrange(1, items.len() as int)),
{
    let first = seq![items[0]];
    let rest = items.subrange(1, items.len() as int);
    assert(items =~= first + rest);
    lemma_flat_append(first, rest, unknown_item_fn());
    let none = Seq::<(u32, UnknownValueModel)>::empty();
    assert(first.drop_last() =~= none);
    assert(first.last() == items[0]);
    assert(flat(none, unknown_item_fn()) == Seq::<u8>::empty());
    assert(flat(first, unknown_item_fn()) == flat(none, unknown_item_fn()) + unknown_item(items[0]));
    assert(flat(first, unknown_item_fn()) =~= unknown_item(items[0]));
    assert(add_all(fs, none) == fs);
    assert(add_all(fs, first) == add_unknown(add_all(fs, none), items[0].0, items[0].1));
    lemma_add_all_append(fs, first, rest);
}

} // verus!
