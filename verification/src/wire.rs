//! Blocks as Firehose sends them: protocol buffers.
//!
//! A block has its header in field 1 and its public logs in field 2. A header
//! has the number, the hash, the parent's hash, the time and the number of the
//! last final block in the fields 1 to 5; a log has the contract's address, the
//! tag, the fields, the transaction's hash and the index in the fields 1 to 5.
//!
//! Every field takes at least one byte. Where a definition below tests that what
//! follows a field is shorter than what it stands in, this is so, and the test
//! only shows that the reading ends.
use vstd::prelude::*;
use vstd::slice::slice_to_vec;
use crate::codec::{Block, BlockHeader, BlockView, HeaderView, LogView, PublicLog};

verus! {

/// How the value of a field is written.
#[derive(Clone, Copy, Debug, PartialEq, Eq, Structural)]
pub enum WireType {
    Varint,
    SixtyFourBit,
    LengthDelimited,
    StartGroup,
    EndGroup,
    ThirtyTwoBit,
}

/// Why bytes are not a block.
#[derive(Clone, Copy, Debug, PartialEq, Eq)]
pub enum WireError {
    InvalidVarint,
    InvalidKey(u64),
    InvalidWireType(u64),
    InvalidTag,
    UnexpectedWireType { actual: WireType, expected: WireType },
    BufferUnderflow,
    DelimitedLengthExceeded,
    UnexpectedEndGroupTag,
    RecursionLimitReached,
}

/// How deep messages and groups may be nested.
pub const RECURSION_LIMIT: u32 = 100;

/// The number at the front of `buf`, in at most `width` bytes of seven bits
/// each, the low ones first, and how many bytes it takes. All but the last
/// have their top bit set.
pub open spec fn varint(buf: Seq<u8>, width: nat) -> Option<(int, nat)>
    decreases width,
{
    if width == 0 || buf.len() == 0 {
        None
    } else if buf[0] < 128 {
        Some((buf[0] as int, 1))
    } else {
        match varint(buf.skip(1), (width - 1) as nat) {
            Some((high, n)) => Some((buf[0] - 128 + 128 * high, n + 1)),
            None => None,
        }
    }
}

/// The number at the front of `buf`, and what follows it.
pub open spec fn varint_read(buf: Seq<u8>) -> Result<(u64, Seq<u8>), WireError> {
    match varint(buf, 10) {
        Some((value, n)) if value <= u64::MAX => Ok((value as u64, buf.skip(n as int))),
        _ => Err(WireError::InvalidVarint),
    }
}

/// What `prost` refuses bytes with.
#[verifier::external_type_specification]
#[verifier::external_body]
pub struct ExDecodeError(prost::DecodeError);

/// `prost::encoding::decode_varint`: the number at the front of `buf`, in at
/// most ten bytes and in the range of `u64`, and what follows it. It fails
/// where there is no such number.
#[verifier::external_body]
fn decode_varint(buf: &[u8]) -> (r: Result<(u64, &[u8]), prost::DecodeError>)
    ensures
        r is Ok <==> varint_read(buf@) is Ok,
        r matches Ok((value, rest)) ==> varint_read(buf@)->Ok_0 == (value, rest@),
{
    let mut rest = buf;
    let value = prost::encoding::decode_varint(&mut rest)?;
    Ok((value, rest))
}

proof fn lemma_varint(buf: Seq<u8>, width: nat)
    ensures
        varint(buf, width) matches Some((value, n)) ==> value >= 0 && 1 <= n <= buf.len(),
    decreases width,
{
    if width > 0 && buf.len() > 0 && buf[0] >= 128 {
        lemma_varint(buf.skip(1), (width - 1) as nat);
    }
}

/// What follows a number is shorter than what it stands in.
proof fn lemma_varint_read(buf: Seq<u8>)
    ensures
        varint_read(buf) matches Ok((_, rest)) ==> rest.len() < buf.len(),
{
    lemma_varint(buf, 10);
}

/// The field and the wire type at the front of `buf`, and what follows them.
pub open spec fn key_read(buf: Seq<u8>) -> Result<(u32, WireType, Seq<u8>), WireError> {
    match varint_read(buf) {
        Err(e) => Err(e),
        Ok((key, rest)) => if key > u32::MAX {
            Err(WireError::InvalidKey(key))
        } else if key % 8 > 5 {
            Err(WireError::InvalidWireType(key % 8))
        } else if key / 8 < 1 {
            Err(WireError::InvalidTag)
        } else {
            Ok(((key / 8) as u32, wire_type_of(key % 8), rest))
        },
    }
}

/// The wire type with the number `n`.
pub open spec fn wire_type_of(n: u64) -> WireType {
    if n == 0 {
        WireType::Varint
    } else if n == 1 {
        WireType::SixtyFourBit
    } else if n == 2 {
        WireType::LengthDelimited
    } else if n == 3 {
        WireType::StartGroup
    } else if n == 4 {
        WireType::EndGroup
    } else {
        WireType::ThirtyTwoBit
    }
}

/// What follows the first `n` bytes of `buf`.
pub open spec fn advanced(buf: Seq<u8>, n: u64) -> Result<Seq<u8>, WireError> {
    if n > buf.len() {
        Err(WireError::BufferUnderflow)
    } else {
        Ok(buf.skip(n as int))
    }
}

/// What follows a field that nothing is known of.
pub open spec fn skip_read(wire_type: WireType, tag: u32, buf: Seq<u8>, depth: nat) -> Result<
    Seq<u8>,
    WireError,
>
    decreases buf.len(), 1int,
{
    if depth == 0 {
        Err(WireError::RecursionLimitReached)
    } else {
        match wire_type {
            WireType::Varint => match varint_read(buf) {
                Ok((_, rest)) => Ok(rest),
                Err(e) => Err(e),
            },
            WireType::ThirtyTwoBit => advanced(buf, 4),
            WireType::SixtyFourBit => advanced(buf, 8),
            WireType::LengthDelimited => match varint_read(buf) {
                Ok((len, rest)) => advanced(rest, len),
                Err(e) => Err(e),
            },
            WireType::StartGroup => group_read(tag, buf, depth),
            WireType::EndGroup => Err(WireError::UnexpectedEndGroupTag),
        }
    }
}

/// What follows a group, from behind its start on.
pub open spec fn group_read(tag: u32, buf: Seq<u8>, depth: nat) -> Result<Seq<u8>, WireError>
    decreases buf.len(), 0int,
{
    match key_read(buf) {
        Err(e) => Err(e),
        Ok((inner_tag, WireType::EndGroup, rest)) => if inner_tag == tag {
            Ok(rest)
        } else {
            Err(WireError::UnexpectedEndGroupTag)
        },
        Ok((inner_tag, inner_type, rest)) => if rest.len() >= buf.len() {
            Err(WireError::BufferUnderflow)
        } else {
            match skip_read(inner_type, inner_tag, rest, (depth - 1) as nat) {
                Err(e) => Err(e),
                Ok(next) => if next.len() >= buf.len() {
                    Err(WireError::BufferUnderflow)
                } else {
                    group_read(tag, next, depth)
                },
            }
        },
    }
}

/// What follows a field is no longer than the field with what follows it.
proof fn lemma_skip_read(wire_type: WireType, tag: u32, buf: Seq<u8>, depth: nat)
    ensures
        skip_read(wire_type, tag, buf, depth) matches Ok(rest) ==> rest.len() <= buf.len(),
    decreases buf.len(), 1int,
{
    lemma_varint_read(buf);
    if wire_type is StartGroup {
        lemma_group_read(tag, buf, depth);
    }
}

proof fn lemma_group_read(tag: u32, buf: Seq<u8>, depth: nat)
    ensures
        group_read(tag, buf, depth) matches Ok(rest) ==> rest.len() <= buf.len(),
    decreases buf.len(), 0int,
{
    lemma_varint_read(buf);
    if let Ok((inner_tag, inner_type, rest)) = key_read(buf) {
        if !(inner_type is EndGroup) {
            lemma_skip_read(inner_type, inner_tag, rest, (depth - 1) as nat);
            if let Ok(next) = skip_read(inner_type, inner_tag, rest, (depth - 1) as nat) {
                lemma_group_read(tag, next, depth);
            }
        }
    }
}

fn read_varint(buf: &[u8]) -> (r: Result<(u64, &[u8]), WireError>)
    ensures
        match r {
            Ok((value, rest)) => varint_read(buf@) == Ok::<(u64, Seq<u8>), WireError>(
                (value, rest@),
            ) && rest@.len() < buf@.len(),
            Err(e) => varint_read(buf@) == Err::<(u64, Seq<u8>), WireError>(e),
        },
{
    proof {
        lemma_varint_read(buf@);
    }
    match decode_varint(buf) {
        Ok((value, rest)) => Ok((value, rest)),
        Err(_) => Err(WireError::InvalidVarint),
    }
}

fn read_key(buf: &[u8]) -> (r: Result<(u32, WireType, &[u8]), WireError>)
    ensures
        match r {
            Ok((tag, wire_type, rest)) => key_read(buf@) == Ok::<(u32, WireType, Seq<u8>), WireError>(
                (tag, wire_type, rest@),
            ) && rest@.len() < buf@.len(),
            Err(e) => key_read(buf@) == Err::<(u32, WireType, Seq<u8>), WireError>(e),
        },
{
    match read_varint(buf) {
        Err(e) => Err(e),
        Ok((key, rest)) => {
            if key > 0xffff_ffff {
                return Err(WireError::InvalidKey(key));
            }
            let wire_type = match key % 8 {
                0 => WireType::Varint,
                1 => WireType::SixtyFourBit,
                2 => WireType::LengthDelimited,
                3 => WireType::StartGroup,
                4 => WireType::EndGroup,
                5 => WireType::ThirtyTwoBit,
                n => return Err(WireError::InvalidWireType(n)),
            };
            if key / 8 < 1 {
                return Err(WireError::InvalidTag);
            }
            Ok(((key / 8) as u32, wire_type, rest))
        },
    }
}

fn advance(buf: &[u8], n: u64) -> (r: Result<&[u8], WireError>)
    ensures
        match r {
            Ok(rest) => advanced(buf@, n) == Ok::<Seq<u8>, WireError>(rest@),
            Err(e) => advanced(buf@, n) == Err::<Seq<u8>, WireError>(e),
        },
{
    if n > buf.len() as u64 {
        Err(WireError::BufferUnderflow)
    } else {
        let (_front, rest) = buf.split_at(n as usize);
        Ok(rest)
    }
}

fn skip_field(wire_type: WireType, tag: u32, buf: &[u8], depth: u32) -> (r: Result<&[u8], WireError>)
    ensures
        match r {
            Ok(rest) => skip_read(wire_type, tag, buf@, depth as nat) == Ok::<Seq<u8>, WireError>(
                rest@,
            ) && rest@.len() <= buf@.len(),
            Err(e) => skip_read(wire_type, tag, buf@, depth as nat) == Err::<Seq<u8>, WireError>(e),
        },
    decreases depth, 1int,
{
    proof {
        lemma_skip_read(wire_type, tag, buf@, depth as nat);
    }
    if depth == 0 {
        return Err(WireError::RecursionLimitReached);
    }
    match wire_type {
        WireType::Varint => match read_varint(buf) {
            Ok((_, rest)) => Ok(rest),
            Err(e) => Err(e),
        },
        WireType::ThirtyTwoBit => advance(buf, 4),
        WireType::SixtyFourBit => advance(buf, 8),
        WireType::LengthDelimited => match read_varint(buf) {
            Ok((len, rest)) => advance(rest, len),
            Err(e) => Err(e),
        },
        WireType::StartGroup => skip_group(tag, buf, depth),
        WireType::EndGroup => Err(WireError::UnexpectedEndGroupTag),
    }
}

fn skip_group(tag: u32, buf: &[u8], depth: u32) -> (r: Result<&[u8], WireError>)
    requires
        depth > 0,
    ensures
        match r {
            Ok(rest) => group_read(tag, buf@, depth as nat) == Ok::<Seq<u8>, WireError>(rest@),
            Err(e) => group_read(tag, buf@, depth as nat) == Err::<Seq<u8>, WireError>(e),
        },
    decreases depth, 0int,
{
    let mut rest = buf;
    loop
        invariant
            depth > 0,
            group_read(tag, buf@, depth as nat) == group_read(tag, rest@, depth as nat),
        decreases rest@.len(),
    {
        match read_key(rest) {
            Err(e) => return Err(e),
            Ok((inner_tag, inner_type, inner)) => {
                if inner_type == WireType::EndGroup {
                    if inner_tag == tag {
                        return Ok(inner);
                    }
                    return Err(WireError::UnexpectedEndGroupTag);
                }
                match skip_field(inner_type, inner_tag, inner, depth - 1) {
                    Err(e) => return Err(e),
                    Ok(next) => rest = next,
                }
            },
        }
    }
}

/// Whether a field is written as it has to be.
pub open spec fn wire_checked(actual: WireType, expected: WireType) -> Result<(), WireError> {
    if actual == expected {
        Ok(())
    } else {
        Err(WireError::UnexpectedWireType { actual, expected })
    }
}

/// The signed number at the front of `buf`, and what follows it. A negative
/// number is written as its two's complement.
pub open spec fn int64_read(wire_type: WireType, buf: Seq<u8>) -> Result<(i64, Seq<u8>), WireError> {
    match wire_checked(wire_type, WireType::Varint) {
        Err(e) => Err(e),
        Ok(_) => match varint_read(buf) {
            Err(e) => Err(e),
            Ok((value, rest)) => Ok((value as i64, rest)),
        },
    }
}

/// The low 32 bits of the number at the front of `buf`, and what follows it.
pub open spec fn uint32_read(wire_type: WireType, buf: Seq<u8>) -> Result<(u32, Seq<u8>), WireError> {
    match wire_checked(wire_type, WireType::Varint) {
        Err(e) => Err(e),
        Ok(_) => match varint_read(buf) {
            Err(e) => Err(e),
            Ok((value, rest)) => Ok((value as u32, rest)),
        },
    }
}

/// The bytes at the front of `buf`, behind their number, and what follows them.
pub open spec fn bytes_read(wire_type: WireType, buf: Seq<u8>) -> Result<
    (Seq<u8>, Seq<u8>),
    WireError,
> {
    match wire_checked(wire_type, WireType::LengthDelimited) {
        Err(e) => Err(e),
        Ok(_) => match varint_read(buf) {
            Err(e) => Err(e),
            Ok((len, rest)) => match advanced(rest, len) {
                Err(e) => Err(e),
                Ok(next) => Ok((rest.take(len as int), next)),
            },
        },
    }
}

/// Where the message at the front of `buf` starts, and how many bytes follow it.
pub open spec fn message_read(wire_type: WireType, buf: Seq<u8>, depth: nat) -> Result<
    (Seq<u8>, nat),
    WireError,
> {
    match wire_checked(wire_type, WireType::LengthDelimited) {
        Err(e) => Err(e),
        Ok(_) => if depth == 0 {
            Err(WireError::RecursionLimitReached)
        } else {
            match varint_read(buf) {
                Err(e) => Err(e),
                Ok((len, rest)) => if len > rest.len() {
                    Err(WireError::BufferUnderflow)
                } else {
                    Ok((rest, (rest.len() - len) as nat))
                },
            }
        },
    }
}

fn check_wire_type(actual: WireType, expected: WireType) -> (r: Result<(), WireError>)
    ensures
        r == wire_checked(actual, expected),
{
    if actual == expected {
        Ok(())
    } else {
        Err(WireError::UnexpectedWireType { actual, expected })
    }
}

fn read_int64(wire_type: WireType, buf: &[u8]) -> (r: Result<(i64, &[u8]), WireError>)
    ensures
        match r {
            Ok((value, rest)) => int64_read(wire_type, buf@) == Ok::<(i64, Seq<u8>), WireError>(
                (value, rest@),
            ) && rest@.len() <= buf@.len(),
            Err(e) => int64_read(wire_type, buf@) == Err::<(i64, Seq<u8>), WireError>(e),
        },
{
    match check_wire_type(wire_type, WireType::Varint) {
        Err(e) => Err(e),
        Ok(_) => match read_varint(buf) {
            Err(e) => Err(e),
            Ok((value, rest)) => Ok((value as i64, rest)),
        },
    }
}

fn read_uint32(wire_type: WireType, buf: &[u8]) -> (r: Result<(u32, &[u8]), WireError>)
    ensures
        match r {
            Ok((value, rest)) => uint32_read(wire_type, buf@) == Ok::<(u32, Seq<u8>), WireError>(
                (value, rest@),
            ) && rest@.len() <= buf@.len(),
            Err(e) => uint32_read(wire_type, buf@) == Err::<(u32, Seq<u8>), WireError>(e),
        },
{
    match check_wire_type(wire_type, WireType::Varint) {
        Err(e) => Err(e),
        Ok(_) => match read_varint(buf) {
            Err(e) => Err(e),
            Ok((value, rest)) => Ok((value as u32, rest)),
        },
    }
}

fn read_bytes(wire_type: WireType, buf: &[u8]) -> (r: Result<(Vec<u8>, &[u8]), WireError>)
    ensures
        match r {
            Ok((bytes, rest)) => bytes_read(wire_type, buf@) == Ok::<(Seq<u8>, Seq<u8>), WireError>(
                (bytes@, rest@),
            ) && rest@.len() <= buf@.len(),
            Err(e) => bytes_read(wire_type, buf@) == Err::<(Seq<u8>, Seq<u8>), WireError>(e),
        },
{
    match check_wire_type(wire_type, WireType::LengthDelimited) {
        Err(e) => Err(e),
        Ok(_) => match read_varint(buf) {
            Err(e) => Err(e),
            Ok((len, rest)) => if len > rest.len() as u64 {
                Err(WireError::BufferUnderflow)
            } else {
                let (front, next) = rest.split_at(len as usize);
                Ok((slice_to_vec(front), next))
            },
        },
    }
}

fn read_message(wire_type: WireType, buf: &[u8], depth: u32) -> (r: Result<(&[u8], usize), WireError>)
    ensures
        match r {
            Ok((rest, limit)) => {
                &&& message_read(wire_type, buf@, depth as nat) == Ok::<(Seq<u8>, nat), WireError>(
                    (rest@, limit as nat),
                )
                &&& depth > 0
                &&& rest@.len() < buf@.len()
            },
            Err(e) => message_read(wire_type, buf@, depth as nat) == Err::<(Seq<u8>, nat), WireError>(e),
        },
{
    match check_wire_type(wire_type, WireType::LengthDelimited) {
        Err(e) => Err(e),
        Ok(_) => if depth == 0 {
            Err(WireError::RecursionLimitReached)
        } else {
            match read_varint(buf) {
                Err(e) => Err(e),
                Ok((len, rest)) => if len > rest.len() as u64 {
                    Err(WireError::BufferUnderflow)
                } else {
                    Ok((rest, rest.len() - len as usize))
                },
            }
        },
    }
}

/// A header of which nothing was read yet.
pub open spec fn blank_header() -> HeaderView {
    HeaderView {
        number: 0,
        hash: Seq::empty(),
        parent_hash: Seq::empty(),
        timestamp: 0,
        final_block_number: 0,
    }
}

/// A log of which nothing was read yet.
pub open spec fn blank_log() -> LogView {
    LogView {
        contract_address: Seq::empty(),
        tag: Seq::empty(),
        fields: Seq::empty(),
        tx_hash: Seq::empty(),
        log_index: 0,
    }
}

/// A block of which nothing was read yet.
pub open spec fn blank_block() -> BlockView {
    BlockView { header: None, public_logs: Seq::empty() }
}

/// The header `h` with one more field, and what follows the field.
pub open spec fn header_field(
    h: HeaderView,
    tag: u32,
    wire_type: WireType,
    buf: Seq<u8>,
    depth: nat,
) -> Result<(HeaderView, Seq<u8>), WireError> {
    if tag == 1 {
        match int64_read(wire_type, buf) {
            Ok((number, rest)) => Ok((HeaderView { number, ..h }, rest)),
            Err(e) => Err(e),
        }
    } else if tag == 2 {
        match bytes_read(wire_type, buf) {
            Ok((hash, rest)) => Ok((HeaderView { hash, ..h }, rest)),
            Err(e) => Err(e),
        }
    } else if tag == 3 {
        match bytes_read(wire_type, buf) {
            Ok((parent_hash, rest)) => Ok((HeaderView { parent_hash, ..h }, rest)),
            Err(e) => Err(e),
        }
    } else if tag == 4 {
        match int64_read(wire_type, buf) {
            Ok((timestamp, rest)) => Ok((HeaderView { timestamp, ..h }, rest)),
            Err(e) => Err(e),
        }
    } else if tag == 5 {
        match int64_read(wire_type, buf) {
            Ok((final_block_number, rest)) => Ok((HeaderView { final_block_number, ..h }, rest)),
            Err(e) => Err(e),
        }
    } else {
        match skip_read(wire_type, tag, buf, depth) {
            Ok(rest) => Ok((h, rest)),
            Err(e) => Err(e),
        }
    }
}

/// The header `h` with all the fields of a message, which ends where `limit`
/// bytes are left, and what follows the message.
pub open spec fn header_fields(h: HeaderView, buf: Seq<u8>, limit: nat, depth: nat) -> Result<
    (HeaderView, Seq<u8>),
    WireError,
>
    decreases buf.len(),
{
    if buf.len() < limit {
        Err(WireError::DelimitedLengthExceeded)
    } else if buf.len() == limit {
        Ok((h, buf))
    } else {
        match key_read(buf) {
            Err(e) => Err(e),
            Ok((tag, wire_type, rest)) => match header_field(h, tag, wire_type, rest, depth) {
                Err(e) => Err(e),
                Ok((g, next)) => if next.len() >= buf.len() {
                    Err(WireError::BufferUnderflow)
                } else {
                    header_fields(g, next, limit, depth)
                },
            },
        }
    }
}

/// The header `h` with all the fields of the message at the front of `buf`, and
/// what follows the message.
pub open spec fn header_message(h: HeaderView, wire_type: WireType, buf: Seq<u8>, depth: nat) -> Result<
    (HeaderView, Seq<u8>),
    WireError,
> {
    match message_read(wire_type, buf, depth) {
        Err(e) => Err(e),
        Ok((rest, limit)) => header_fields(h, rest, limit, (depth - 1) as nat),
    }
}

/// The log `l` with one more field, and what follows the field.
pub open spec fn log_field(l: LogView, tag: u32, wire_type: WireType, buf: Seq<u8>, depth: nat) -> Result<
    (LogView, Seq<u8>),
    WireError,
> {
    if tag == 1 {
        match bytes_read(wire_type, buf) {
            Ok((contract_address, rest)) => Ok((LogView { contract_address, ..l }, rest)),
            Err(e) => Err(e),
        }
    } else if tag == 2 {
        match bytes_read(wire_type, buf) {
            Ok((tag, rest)) => Ok((LogView { tag, ..l }, rest)),
            Err(e) => Err(e),
        }
    } else if tag == 3 {
        match bytes_read(wire_type, buf) {
            Ok((field, rest)) => Ok((LogView { fields: l.fields.push(field), ..l }, rest)),
            Err(e) => Err(e),
        }
    } else if tag == 4 {
        match bytes_read(wire_type, buf) {
            Ok((tx_hash, rest)) => Ok((LogView { tx_hash, ..l }, rest)),
            Err(e) => Err(e),
        }
    } else if tag == 5 {
        match uint32_read(wire_type, buf) {
            Ok((log_index, rest)) => Ok((LogView { log_index, ..l }, rest)),
            Err(e) => Err(e),
        }
    } else {
        match skip_read(wire_type, tag, buf, depth) {
            Ok(rest) => Ok((l, rest)),
            Err(e) => Err(e),
        }
    }
}

/// The log `l` with all the fields of a message, which ends where `limit` bytes
/// are left, and what follows the message.
pub open spec fn log_fields(l: LogView, buf: Seq<u8>, limit: nat, depth: nat) -> Result<
    (LogView, Seq<u8>),
    WireError,
>
    decreases buf.len(),
{
    if buf.len() < limit {
        Err(WireError::DelimitedLengthExceeded)
    } else if buf.len() == limit {
        Ok((l, buf))
    } else {
        match key_read(buf) {
            Err(e) => Err(e),
            Ok((tag, wire_type, rest)) => match log_field(l, tag, wire_type, rest, depth) {
                Err(e) => Err(e),
                Ok((m, next)) => if next.len() >= buf.len() {
                    Err(WireError::BufferUnderflow)
                } else {
                    log_fields(m, next, limit, depth)
                },
            },
        }
    }
}

/// The log in the message at the front of `buf`, and what follows the message.
pub open spec fn log_message(wire_type: WireType, buf: Seq<u8>, depth: nat) -> Result<
    (LogView, Seq<u8>),
    WireError,
> {
    match message_read(wire_type, buf, depth) {
        Err(e) => Err(e),
        Ok((rest, limit)) => log_fields(blank_log(), rest, limit, (depth - 1) as nat),
    }
}

/// The block `b` with one more field, and what follows the field. A header that
/// comes in pieces is put together from them.
pub open spec fn block_field(b: BlockView, tag: u32, wire_type: WireType, buf: Seq<u8>, depth: nat) -> Result<
    (BlockView, Seq<u8>),
    WireError,
> {
    if tag == 1 {
        let h = match b.header {
            Some(h) => h,
            None => blank_header(),
        };
        match header_message(h, wire_type, buf, depth) {
            Ok((header, rest)) => Ok((BlockView { header: Some(header), ..b }, rest)),
            Err(e) => Err(e),
        }
    } else if tag == 2 {
        match log_message(wire_type, buf, depth) {
            Ok((log, rest)) => Ok((BlockView { public_logs: b.public_logs.push(log), ..b }, rest)),
            Err(e) => Err(e),
        }
    } else {
        match skip_read(wire_type, tag, buf, depth) {
            Ok(rest) => Ok((b, rest)),
            Err(e) => Err(e),
        }
    }
}

/// The block `b` with all the fields in `buf`.
pub open spec fn block_fields(b: BlockView, buf: Seq<u8>, depth: nat) -> Result<BlockView, WireError>
    decreases buf.len(),
{
    if buf.len() == 0 {
        Ok(b)
    } else {
        match key_read(buf) {
            Err(e) => Err(e),
            Ok((tag, wire_type, rest)) => match block_field(b, tag, wire_type, rest, depth) {
                Err(e) => Err(e),
                Ok((c, next)) => if next.len() >= buf.len() {
                    Err(WireError::BufferUnderflow)
                } else {
                    block_fields(c, next, depth)
                },
            },
        }
    }
}

/// The block that `bytes` hold.
pub open spec fn block_of(bytes: Seq<u8>) -> Result<BlockView, WireError> {
    block_fields(blank_block(), bytes, RECURSION_LIMIT as nat)
}

fn read_header_field<'a>(
    target: &mut BlockHeader,
    tag: u32,
    wire_type: WireType,
    buf: &'a [u8],
    depth: u32,
) -> (r: Result<&'a [u8], WireError>)
    ensures
        match r {
            Ok(rest) => header_field(old(target)@, tag, wire_type, buf@, depth as nat) == Ok::<
                (HeaderView, Seq<u8>),
                WireError,
            >((final(target)@, rest@)) && rest@.len() <= buf@.len(),
            Err(e) => header_field(old(target)@, tag, wire_type, buf@, depth as nat) == Err::<
                (HeaderView, Seq<u8>),
                WireError,
            >(e),
        },
{
    match tag {
        1 => match read_int64(wire_type, buf) {
            Err(e) => Err(e),
            Ok((value, rest)) => {
                target.number = value;
                Ok(rest)
            },
        },
        2 => match read_bytes(wire_type, buf) {
            Err(e) => Err(e),
            Ok((value, rest)) => {
                target.hash = value;
                Ok(rest)
            },
        },
        3 => match read_bytes(wire_type, buf) {
            Err(e) => Err(e),
            Ok((value, rest)) => {
                target.parent_hash = value;
                Ok(rest)
            },
        },
        4 => match read_int64(wire_type, buf) {
            Err(e) => Err(e),
            Ok((value, rest)) => {
                target.timestamp = value;
                Ok(rest)
            },
        },
        5 => match read_int64(wire_type, buf) {
            Err(e) => Err(e),
            Ok((value, rest)) => {
                target.final_block_number = value;
                Ok(rest)
            },
        },
        _ => skip_field(wire_type, tag, buf, depth),
    }
}

fn read_header_fields<'a>(target: &mut BlockHeader, buf: &'a [u8], limit: usize, depth: u32) -> (r: Result<&'a [u8], WireError>)
    ensures
        match r {
            Ok(rest) => header_fields(old(target)@, buf@, limit as nat, depth as nat) == Ok::<
                (HeaderView, Seq<u8>),
                WireError,
            >((final(target)@, rest@)) && rest@.len() <= buf@.len(),
            Err(e) => header_fields(old(target)@, buf@, limit as nat, depth as nat) == Err::<
                (HeaderView, Seq<u8>),
                WireError,
            >(e),
        },
{
    let mut rest = buf;
    while rest.len() > limit
        invariant
            header_fields(target@, rest@, limit as nat, depth as nat) == header_fields(
                old(target)@,
                buf@,
                limit as nat,
                depth as nat,
            ),
            rest@.len() <= buf@.len(),
        decreases rest@.len(),
    {
        match read_key(rest) {
            Err(e) => return Err(e),
            Ok((tag, wire_type, value)) => match read_header_field(target, tag, wire_type, value, depth) {
                Err(e) => return Err(e),
                Ok(next) => rest = next,
            },
        }
    }
    if rest.len() < limit {
        Err(WireError::DelimitedLengthExceeded)
    } else {
        Ok(rest)
    }
}

fn read_log_field<'a>(
    target: &mut PublicLog,
    tag: u32,
    wire_type: WireType,
    buf: &'a [u8],
    depth: u32,
) -> (r: Result<&'a [u8], WireError>)
    ensures
        match r {
            Ok(rest) => log_field(old(target)@, tag, wire_type, buf@, depth as nat) == Ok::<
                (LogView, Seq<u8>),
                WireError,
            >((final(target)@, rest@)) && rest@.len() <= buf@.len(),
            Err(e) => log_field(old(target)@, tag, wire_type, buf@, depth as nat) == Err::<
                (LogView, Seq<u8>),
                WireError,
            >(e),
        },
{
    match tag {
        1 => match read_bytes(wire_type, buf) {
            Err(e) => Err(e),
            Ok((value, rest)) => {
                target.contract_address = value;
                Ok(rest)
            },
        },
        2 => match read_bytes(wire_type, buf) {
            Err(e) => Err(e),
            Ok((value, rest)) => {
                target.tag = value;
                Ok(rest)
            },
        },
        3 => match read_bytes(wire_type, buf) {
            Err(e) => Err(e),
            Ok((value, rest)) => {
                target.fields.push(value);
                assert(target@.fields =~= old(target)@.fields.push(value@));
                Ok(rest)
            },
        },
        4 => match read_bytes(wire_type, buf) {
            Err(e) => Err(e),
            Ok((value, rest)) => {
                target.tx_hash = value;
                Ok(rest)
            },
        },
        5 => match read_uint32(wire_type, buf) {
            Err(e) => Err(e),
            Ok((value, rest)) => {
                target.log_index = value;
                Ok(rest)
            },
        },
        _ => skip_field(wire_type, tag, buf, depth),
    }
}

fn read_log_fields<'a>(target: &mut PublicLog, buf: &'a [u8], limit: usize, depth: u32) -> (r: Result<&'a [u8], WireError>)
    ensures
        match r {
            Ok(rest) => log_fields(old(target)@, buf@, limit as nat, depth as nat) == Ok::<
                (LogView, Seq<u8>),
                WireError,
            >((final(target)@, rest@)) && rest@.len() <= buf@.len(),
            Err(e) => log_fields(old(target)@, buf@, limit as nat, depth as nat) == Err::<
                (LogView, Seq<u8>),
                WireError,
            >(e),
        },
{
    let mut rest = buf;
    while rest.len() > limit
        invariant
            log_fields(target@, rest@, limit as nat, depth as nat) == log_fields(
                old(target)@,
                buf@,
                limit as nat,
                depth as nat,
            ),
            rest@.len() <= buf@.len(),
        decreases rest@.len(),
    {
        match read_key(rest) {
            Err(e) => return Err(e),
            Ok((tag, wire_type, value)) => match read_log_field(target, tag, wire_type, value, depth) {
                Err(e) => return Err(e),
                Ok(next) => rest = next,
            },
        }
    }
    if rest.len() < limit {
        Err(WireError::DelimitedLengthExceeded)
    } else {
        Ok(rest)
    }
}

fn read_block_field<'a>(
    target: &mut Block,
    tag: u32,
    wire_type: WireType,
    buf: &'a [u8],
    depth: u32,
) -> (r: Result<&'a [u8], WireError>)
    ensures
        match r {
            Ok(rest) => block_field(old(target)@, tag, wire_type, buf@, depth as nat) == Ok::<
                (BlockView, Seq<u8>),
                WireError,
            >((final(target)@, rest@)) && rest@.len() <= buf@.len(),
            Err(e) => block_field(old(target)@, tag, wire_type, buf@, depth as nat) == Err::<
                (BlockView, Seq<u8>),
                WireError,
            >(e),
        },
{
    match tag {
        1 => match read_message(wire_type, buf, depth) {
            Err(e) => Err(e),
            Ok((message, limit)) => {
                let mut header = match target.header.take() {
                    Some(header) => header,
                    None => new_header(),
                };
                match read_header_fields(&mut header, message, limit, depth - 1) {
                    Err(e) => Err(e),
                    Ok(rest) => {
                        target.header = Some(header);
                        Ok(rest)
                    },
                }
            },
        },
        2 => match read_message(wire_type, buf, depth) {
            Err(e) => Err(e),
            Ok((message, limit)) => {
                let mut log = new_log();
                match read_log_fields(&mut log, message, limit, depth - 1) {
                    Err(e) => Err(e),
                    Ok(rest) => {
                        target.public_logs.push(log);
                        assert(target@.public_logs =~= old(target)@.public_logs.push(log@));
                        Ok(rest)
                    },
                }
            },
        },
        _ => skip_field(wire_type, tag, buf, depth),
    }
}

fn new_header() -> (r: BlockHeader)
    ensures
        r@ == blank_header(),
{
    BlockHeader {
        number: 0,
        hash: Vec::new(),
        parent_hash: Vec::new(),
        timestamp: 0,
        final_block_number: 0,
    }
}

fn new_log() -> (r: PublicLog)
    ensures
        r@ == blank_log(),
{
    let log = PublicLog {
        contract_address: Vec::new(),
        tag: Vec::new(),
        fields: Vec::new(),
        tx_hash: Vec::new(),
        log_index: 0,
    };
    assert(log@.fields =~= blank_log().fields);
    log
}

impl Block {
    /// Reads a block as Firehose sends it.
    pub fn decode(bytes: &[u8]) -> (r: Result<Block, WireError>)
        ensures
            match r {
                Ok(block) => block_of(bytes@) == Ok::<BlockView, WireError>(block@),
                Err(e) => block_of(bytes@) == Err::<BlockView, WireError>(e),
            },
    {
        let mut block = Block { header: None, public_logs: Vec::new() };
        assert(block@.public_logs =~= blank_block().public_logs);
        let mut rest = bytes;
        while rest.len() > 0
            invariant
                block_fields(block@, rest@, RECURSION_LIMIT as nat) == block_of(bytes@),
            decreases rest@.len(),
        {
            match read_key(rest) {
                Err(e) => return Err(e),
                Ok((tag, wire_type, value)) => match read_block_field(
                    &mut block,
                    tag,
                    wire_type,
                    value,
                    RECURSION_LIMIT,
                ) {
                    Err(e) => return Err(e),
                    Ok(next) => rest = next,
                },
            }
        }
        Ok(block)
    }
}

/// The number `value` in bytes of seven bits each, the low ones first, all but
/// the last with their top bit set.
pub open spec fn varint_bytes(value: nat) -> Seq<u8>
    decreases value,
{
    if value < 128 {
        seq![value as u8]
    } else {
        seq![(value % 128 + 128) as u8] + varint_bytes(value / 128)
    }
}

/// What announces the field `tag`, with the number of its wire type.
pub open spec fn key_bytes(tag: nat, wire_type: nat) -> Seq<u8> {
    varint_bytes(8 * tag + wire_type)
}

/// The signed number `value` as the field `tag`; zero goes unsaid.
pub open spec fn int64_field(tag: nat, value: i64) -> Seq<u8> {
    if value == 0 {
        Seq::empty()
    } else {
        key_bytes(tag, 0) + varint_bytes((value as u64) as nat)
    }
}

/// The number `value` as the field `tag`; zero goes unsaid.
pub open spec fn uint32_field(tag: nat, value: u32) -> Seq<u8> {
    if value == 0 {
        Seq::empty()
    } else {
        key_bytes(tag, 0) + varint_bytes(value as nat)
    }
}

/// `bytes` behind their number as the field `tag`.
pub open spec fn delimited_field(tag: nat, bytes: Seq<u8>) -> Seq<u8> {
    key_bytes(tag, 2) + (varint_bytes(bytes.len()) + bytes)
}

/// `bytes` as the field `tag`; no bytes go unsaid.
pub open spec fn bytes_field(tag: nat, bytes: Seq<u8>) -> Seq<u8> {
    if bytes.len() == 0 {
        Seq::empty()
    } else {
        delimited_field(tag, bytes)
    }
}

/// Each of `parts` as one more of the field `tag`.
pub open spec fn repeated_field(tag: nat, parts: Seq<Seq<u8>>) -> Seq<u8>
    decreases parts.len(),
{
    if parts.len() == 0 {
        Seq::empty()
    } else {
        delimited_field(tag, parts[0]) + repeated_field(tag, parts.skip(1))
    }
}

/// A header as it is written.
pub open spec fn header_bytes(h: HeaderView) -> Seq<u8> {
    int64_field(1, h.number) + (bytes_field(2, h.hash) + (bytes_field(3, h.parent_hash) + (
    int64_field(4, h.timestamp) + int64_field(5, h.final_block_number))))
}

/// A log as it is written.
pub open spec fn log_bytes(l: LogView) -> Seq<u8> {
    bytes_field(1, l.contract_address) + (bytes_field(2, l.tag) + (repeated_field(3, l.fields) + (
    bytes_field(4, l.tx_hash) + uint32_field(5, l.log_index))))
}

/// A block as it is written.
pub open spec fn block_bytes(b: BlockView) -> Seq<u8> {
    (match b.header {
        Some(h) => delimited_field(1, header_bytes(h)),
        None => Seq::empty(),
    }) + repeated_field(2, b.public_logs.map_values(|l: LogView| log_bytes(l)))
}

/// How many numbers there are of `width` digits of seven bits.
spec fn varint_limit(width: nat) -> nat
    decreases width,
{
    if width == 0 {
        1
    } else {
        128 * varint_limit((width - 1) as nat)
    }
}

proof fn lemma_varint_written(value: nat, width: nat, tail: Seq<u8>)
    requires
        value < varint_limit(width),
        width > 0,
    ensures
        varint_bytes(value).len() > 0,
        varint(varint_bytes(value) + tail, width) == Some(
            (value as int, varint_bytes(value).len()),
        ),
    decreases width,
{
    let buf = varint_bytes(value) + tail;
    if value >= 128 {
        let high = value / 128;
        if width == 1 {
            assert(varint_limit(0) == 1);
        }
        lemma_varint_written(high, (width - 1) as nat, tail);
        assert(buf.skip(1) =~= varint_bytes(high) + tail);
        assert(buf[0] == (value % 128 + 128) as u8);
    }
}

proof fn lemma_varint_read_back(value: u64, tail: Seq<u8>)
    ensures
        varint_bytes(value as nat).len() > 0,
        varint_read(varint_bytes(value as nat) + tail) == Ok::<(u64, Seq<u8>), WireError>((value, tail)),
{
    reveal_with_fuel(varint_limit, 11);
    lemma_varint_written(value as nat, 10, tail);
    let front = varint_bytes(value as nat);
    assert((front + tail).skip(front.len() as int) =~= tail);
}

proof fn lemma_key_read_back(tag: u32, wire_type: nat, tail: Seq<u8>)
    requires
        1 <= tag <= 0x1fff_ffff,
        wire_type == 0 || wire_type == 2,
    ensures
        key_bytes(tag as nat, wire_type).len() > 0,
        key_read(key_bytes(tag as nat, wire_type) + tail) == Ok::<(u32, WireType, Seq<u8>), WireError>(
            (tag, wire_type_of(wire_type as u64), tail),
        ),
{
    let key = (8 * tag + wire_type) as u64;
    lemma_varint_read_back(key, tail);
    assert(key % 8 == wire_type);
    assert(key / 8 == tag);
}

proof fn lemma_int64_read_back(value: i64, tail: Seq<u8>)
    ensures
        int64_read(WireType::Varint, varint_bytes((value as u64) as nat) + tail) == Ok::<
            (i64, Seq<u8>),
            WireError,
        >((value, tail)),
{
    lemma_varint_read_back(value as u64, tail);
    assert((value as u64) as i64 == value) by (bit_vector);
}

/// What a number that says how many bytes follow is read as.
proof fn lemma_length_read_back(bytes: Seq<u8>, tail: Seq<u8>)
    requires
        bytes.len() <= u64::MAX,
    ensures
        varint_read(varint_bytes(bytes.len()) + bytes + tail) == Ok::<(u64, Seq<u8>), WireError>(
            (bytes.len() as u64, bytes + tail),
        ),
{
    let len = bytes.len() as u64;
    let front = varint_bytes(len as nat);
    lemma_varint_read_back(len, bytes + tail);
    assert(front + bytes + tail =~= front + (bytes + tail));
}

/// Bytes are read behind a number that says how many they are.
proof fn lemma_bytes_behind(buf: Seq<u8>, bytes: Seq<u8>, tail: Seq<u8>)
    requires
        bytes.len() <= u64::MAX,
        varint_read(buf) == Ok::<(u64, Seq<u8>), WireError>((bytes.len() as u64, bytes + tail)),
    ensures
        bytes_read(WireType::LengthDelimited, buf) == Ok::<(Seq<u8>, Seq<u8>), WireError>(
            (bytes, tail),
        ),
{
    let rest = bytes + tail;
    assert(rest.skip(bytes.len() as int) =~= tail);
    assert(rest.take(bytes.len() as int) =~= bytes);
    assert(advanced(rest, bytes.len() as u64) == Ok::<Seq<u8>, WireError>(tail));
}

proof fn lemma_bytes_read_back(bytes: Seq<u8>, tail: Seq<u8>)
    requires
        bytes.len() <= u64::MAX,
    ensures
        bytes_read(WireType::LengthDelimited, varint_bytes(bytes.len()) + bytes + tail) == Ok::<
            (Seq<u8>, Seq<u8>),
            WireError,
        >((bytes, tail)),
{
    lemma_length_read_back(bytes, tail);
    lemma_bytes_behind(varint_bytes(bytes.len()) + bytes + tail, bytes, tail);
}

/// It makes no difference how three pieces are grouped.
proof fn lemma_grouped(a: Seq<u8>, b: Seq<u8>, c: Seq<u8>)
    ensures
        a + b + c == a + (b + c),
{
    assert(a + b + c =~= a + (b + c));
}

proof fn lemma_header_int64(g: HeaderView, h: HeaderView, tag: u32, value: i64, rest: Seq<u8>, limit: nat, depth: nat)
    requires
        limit <= rest.len(),
        value == 0 ==> h == g,
        value != 0 && tag == 1 ==> h == (HeaderView { number: value, ..g }),
        value != 0 && tag == 4 ==> h == (HeaderView { timestamp: value, ..g }),
        value != 0 && tag == 5 ==> h == (HeaderView { final_block_number: value, ..g }),
        tag == 1 || tag == 4 || tag == 5,
    ensures
        header_fields(g, int64_field(tag as nat, value) + rest, limit, depth) == header_fields(
            h,
            rest,
            limit,
            depth,
        ),
{
    let field = int64_field(tag as nat, value);
    if value == 0 {
        assert(field + rest =~= rest);
    } else {
        let body = varint_bytes((value as u64) as nat);
        lemma_varint_read_back(value as u64, rest);
        lemma_key_read_back(tag, 0, body + rest);
        lemma_int64_read_back(value, rest);
        lemma_grouped(key_bytes(tag as nat, 0), body, rest);
    }
}

proof fn lemma_header_bytes(g: HeaderView, h: HeaderView, tag: u32, bytes: Seq<u8>, rest: Seq<u8>, limit: nat, depth: nat)
    requires
        limit <= rest.len(),
        bytes.len() <= u64::MAX,
        bytes.len() == 0 ==> h == g,
        bytes.len() > 0 && tag == 2 ==> h == (HeaderView { hash: bytes, ..g }),
        bytes.len() > 0 && tag == 3 ==> h == (HeaderView { parent_hash: bytes, ..g }),
        tag == 2 || tag == 3,
    ensures
        header_fields(g, bytes_field(tag as nat, bytes) + rest, limit, depth) == header_fields(
            h,
            rest,
            limit,
            depth,
        ),
{
    let field = bytes_field(tag as nat, bytes);
    if bytes.len() == 0 {
        assert(field + rest =~= rest);
    } else {
        let body = varint_bytes(bytes.len()) + bytes;
        lemma_key_read_back(tag, 2, body + rest);
        lemma_bytes_read_back(bytes, rest);
        lemma_grouped(key_bytes(tag as nat, 2), body, rest);
    }
}

/// It makes no difference how five pieces and what follows them are grouped.
proof fn lemma_pieces(a: Seq<u8>, b: Seq<u8>, c: Seq<u8>, d: Seq<u8>, e: Seq<u8>, tail: Seq<u8>)
    ensures
        a + (b + (c + (d + e))) + tail == a + (b + (c + (d + (e + tail)))),
{
    assert(a + (b + (c + (d + e))) + tail =~= a + (b + (c + (d + (e + tail)))));
}

/// The header `g` with what `h` says: each part of `h` that is not blank takes
/// the place of that of `g`.
pub open spec fn header_merged(g: HeaderView, h: HeaderView) -> HeaderView {
    HeaderView {
        number: if h.number == 0 {
            g.number
        } else {
            h.number
        },
        hash: if h.hash.len() == 0 {
            g.hash
        } else {
            h.hash
        },
        parent_hash: if h.parent_hash.len() == 0 {
            g.parent_hash
        } else {
            h.parent_hash
        },
        timestamp: if h.timestamp == 0 {
            g.timestamp
        } else {
            h.timestamp
        },
        final_block_number: if h.final_block_number == 0 {
            g.final_block_number
        } else {
            h.final_block_number
        },
    }
}

proof fn lemma_header_merged_blank(h: HeaderView)
    ensures
        header_merged(blank_header(), h) == h,
{
    if h.hash.len() == 0 {
        assert(h.hash =~= Seq::empty());
    }
    if h.parent_hash.len() == 0 {
        assert(h.parent_hash =~= Seq::empty());
    }
}

proof fn lemma_header_read_back(g: HeaderView, h: HeaderView, tail: Seq<u8>, depth: nat)
    requires
        h.hash.len() <= u64::MAX,
        h.parent_hash.len() <= u64::MAX,
    ensures
        header_fields(g, header_bytes(h) + tail, tail.len(), depth) == Ok::<
            (HeaderView, Seq<u8>),
            WireError,
        >((header_merged(g, h), tail)),
{
    let limit = tail.len();
    let m = header_merged(g, h);
    let b1 = HeaderView { number: m.number, ..g };
    let b2 = HeaderView { hash: m.hash, ..b1 };
    let b3 = HeaderView { parent_hash: m.parent_hash, ..b2 };
    let b4 = HeaderView { timestamp: m.timestamp, ..b3 };
    let r4 = int64_field(5, h.final_block_number) + tail;
    let r3 = int64_field(4, h.timestamp) + r4;
    let r2 = bytes_field(3, h.parent_hash) + r3;
    let r1 = bytes_field(2, h.hash) + r2;
    lemma_header_int64(g, b1, 1, h.number, r1, limit, depth);
    lemma_header_bytes(b1, b2, 2, h.hash, r2, limit, depth);
    lemma_header_bytes(b2, b3, 3, h.parent_hash, r3, limit, depth);
    lemma_header_int64(b3, b4, 4, h.timestamp, r4, limit, depth);
    lemma_header_int64(b4, m, 5, h.final_block_number, tail, limit, depth);
    lemma_pieces(
        int64_field(1, h.number),
        bytes_field(2, h.hash),
        bytes_field(3, h.parent_hash),
        int64_field(4, h.timestamp),
        int64_field(5, h.final_block_number),
        tail,
    );
}

proof fn lemma_log_bytes(g: LogView, l: LogView, tag: u32, bytes: Seq<u8>, rest: Seq<u8>, limit: nat, depth: nat)
    requires
        limit <= rest.len(),
        bytes.len() <= u64::MAX,
        tag == 1 ==> l == (LogView { contract_address: bytes, ..g }) && g.contract_address == Seq::<
            u8,
        >::empty(),
        tag == 2 ==> l == (LogView { tag: bytes, ..g }) && g.tag == Seq::<u8>::empty(),
        tag == 4 ==> l == (LogView { tx_hash: bytes, ..g }) && g.tx_hash == Seq::<u8>::empty(),
        tag == 1 || tag == 2 || tag == 4,
    ensures
        log_fields(g, bytes_field(tag as nat, bytes) + rest, limit, depth) == log_fields(
            l,
            rest,
            limit,
            depth,
        ),
{
    let field = bytes_field(tag as nat, bytes);
    if bytes.len() == 0 {
        assert(field + rest =~= rest);
        assert(bytes =~= Seq::empty());
        assert(g == l);
    } else {
        let body = varint_bytes(bytes.len()) + bytes;
        lemma_key_read_back(tag, 2, body + rest);
        lemma_bytes_read_back(bytes, rest);
        lemma_grouped(key_bytes(tag as nat, 2), body, rest);
    }
}

proof fn lemma_log_fields(g: LogView, parts: Seq<Seq<u8>>, rest: Seq<u8>, limit: nat, depth: nat)
    requires
        limit <= rest.len(),
        repeated_field(3, parts).len() <= u64::MAX,
    ensures
        log_fields(g, repeated_field(3, parts) + rest, limit, depth) == log_fields(
            LogView { fields: g.fields + parts, ..g },
            rest,
            limit,
            depth,
        ),
    decreases parts.len(),
{
    if parts.len() == 0 {
        assert(repeated_field(3, parts) + rest =~= rest);
        assert(g.fields + parts =~= g.fields);
    } else {
        let part = parts[0];
        let next = repeated_field(3, parts.skip(1)) + rest;
        let body = varint_bytes(part.len()) + part;
        lemma_key_read_back(3, 2, body + next);
        lemma_bytes_read_back(part, next);
        lemma_grouped(key_bytes(3, 2), body, repeated_field(3, parts.skip(1)));
        lemma_grouped(key_bytes(3, 2), body + repeated_field(3, parts.skip(1)), rest);
        lemma_grouped(body, repeated_field(3, parts.skip(1)), rest);
        let h = LogView { fields: g.fields.push(part), ..g };
        lemma_log_fields(h, parts.skip(1), rest, limit, depth);
        assert(h.fields + parts.skip(1) =~= g.fields + parts);
    }
}

proof fn lemma_log_index(g: LogView, l: LogView, value: u32, tail: Seq<u8>, depth: nat)
    requires
        l == (LogView { log_index: value, ..g }),
        g.log_index == 0,
    ensures
        log_fields(g, uint32_field(5, value) + tail, tail.len(), depth) == Ok::<
            (LogView, Seq<u8>),
            WireError,
        >((l, tail)),
{
    let field = uint32_field(5, value);
    assert(log_fields(l, tail, tail.len(), depth) == Ok::<(LogView, Seq<u8>), WireError>((l, tail)));
    if value == 0 {
        assert(field + tail =~= tail);
        assert(g == l);
    } else {
        let body = varint_bytes(value as nat);
        lemma_varint_read_back(value as u64, tail);
        lemma_key_read_back(5, 0, body + tail);
        assert((value as u64) as u32 == value) by (bit_vector);
        lemma_grouped(key_bytes(5, 0), body, tail);
    }
}

proof fn lemma_log_read_back(l: LogView, tail: Seq<u8>, depth: nat)
    requires
        log_bytes(l).len() <= u64::MAX,
    ensures
        log_fields(blank_log(), log_bytes(l) + tail, tail.len(), depth) == Ok::<
            (LogView, Seq<u8>),
            WireError,
        >((l, tail)),
{
    let limit = tail.len();
    let b0 = blank_log();
    let b1 = LogView { contract_address: l.contract_address, ..b0 };
    let b2 = LogView { tag: l.tag, ..b1 };
    let b3 = LogView { fields: b2.fields + l.fields, ..b2 };
    let b4 = LogView { tx_hash: l.tx_hash, ..b3 };
    let r4 = uint32_field(5, l.log_index) + tail;
    let r3 = bytes_field(4, l.tx_hash) + r4;
    let r2 = repeated_field(3, l.fields) + r3;
    let r1 = bytes_field(2, l.tag) + r2;
    lemma_log_bytes(b0, b1, 1, l.contract_address, r1, limit, depth);
    lemma_log_bytes(b1, b2, 2, l.tag, r2, limit, depth);
    lemma_log_fields(b2, l.fields, r3, limit, depth);
    lemma_log_bytes(b3, b4, 4, l.tx_hash, r4, limit, depth);
    assert(b2.fields + l.fields =~= l.fields);
    lemma_log_index(b4, l, l.log_index, tail, depth);
    lemma_pieces(
        bytes_field(1, l.contract_address),
        bytes_field(2, l.tag),
        repeated_field(3, l.fields),
        bytes_field(4, l.tx_hash),
        uint32_field(5, l.log_index),
        tail,
    );
}

proof fn lemma_message_read_back(bytes: Seq<u8>, tail: Seq<u8>, depth: nat)
    requires
        bytes.len() <= u64::MAX,
        depth > 0,
    ensures
        message_read(WireType::LengthDelimited, varint_bytes(bytes.len()) + bytes + tail, depth)
            == Ok::<(Seq<u8>, nat), WireError>((bytes + tail, tail.len())),
{
    lemma_length_read_back(bytes, tail);
}

proof fn lemma_logs_read_back(b: BlockView, logs: Seq<LogView>, depth: nat)
    requires
        repeated_field(2, logs.map_values(|l: LogView| log_bytes(l))).len() <= u64::MAX,
        depth > 0,
    ensures
        block_fields(b, repeated_field(2, logs.map_values(|l: LogView| log_bytes(l))), depth) == Ok::<
            BlockView,
            WireError,
        >(BlockView { public_logs: b.public_logs + logs, ..b }),
    decreases logs.len(),
{
    let parts = logs.map_values(|l: LogView| log_bytes(l));
    if logs.len() == 0 {
        assert(b.public_logs + logs =~= b.public_logs);
    } else {
        let part = parts[0];
        let rest = logs.skip(1);
        assert(parts.skip(1) =~= rest.map_values(|l: LogView| log_bytes(l)));
        let next = repeated_field(2, parts.skip(1));
        let body = varint_bytes(part.len()) + part;
        lemma_key_read_back(2, 2, body + next);
        lemma_message_read_back(part, next, depth);
        lemma_log_read_back(logs[0], next, (depth - 1) as nat);
        lemma_grouped(key_bytes(2, 2), body, next);
        let c = BlockView { public_logs: b.public_logs.push(logs[0]), ..b };
        lemma_logs_read_back(c, rest, depth);
        assert(c.public_logs + rest =~= b.public_logs + logs);
    }
}

/// A block that was written is read back.
pub proof fn law_block_read_back(b: BlockView)
    requires
        block_bytes(b).len() <= usize::MAX,
    ensures
        block_of(block_bytes(b)) == Ok::<BlockView, WireError>(b),
{
    let blank = blank_block();
    let logs = repeated_field(2, b.public_logs.map_values(|l: LogView| log_bytes(l)));
    let depth = RECURSION_LIMIT as nat;
    match b.header {
        None => {
            assert(block_bytes(b) =~= logs);
            lemma_logs_read_back(blank, b.public_logs, depth);
        },
        Some(h) => {
            let part = header_bytes(h);
            let body = varint_bytes(part.len()) + part;
            lemma_key_read_back(1, 2, body + logs);
            lemma_message_read_back(part, logs, depth);
            lemma_header_read_back(blank_header(), h, logs, (depth - 1) as nat);
            lemma_header_merged_blank(h);
            lemma_grouped(key_bytes(1, 2), body, logs);
            let c = BlockView { header: Some(h), ..blank };
            lemma_logs_read_back(c, b.public_logs, depth);
        },
    }
    assert(blank.public_logs + b.public_logs =~= b.public_logs);
}

/// The fields of a header, in any order and however often: the last one counts,
/// whatever was there before, and leaves the others as they were.
pub proof fn law_header_field_counts(h: HeaderView, n: i64, bytes: Seq<u8>, rest: Seq<u8>, limit: nat, depth: nat)
    requires
        limit <= rest.len(),
        bytes.len() <= u64::MAX,
    ensures
        header_fields(h, key_bytes(1, 0) + (varint_bytes((n as u64) as nat) + rest), limit, depth)
            == header_fields(HeaderView { number: n, ..h }, rest, limit, depth),
        header_fields(h, key_bytes(4, 0) + (varint_bytes((n as u64) as nat) + rest), limit, depth)
            == header_fields(HeaderView { timestamp: n, ..h }, rest, limit, depth),
        header_fields(h, key_bytes(5, 0) + (varint_bytes((n as u64) as nat) + rest), limit, depth)
            == header_fields(HeaderView { final_block_number: n, ..h }, rest, limit, depth),
        header_fields(h, delimited_field(2, bytes) + rest, limit, depth) == header_fields(
            HeaderView { hash: bytes, ..h },
            rest,
            limit,
            depth,
        ),
        header_fields(h, delimited_field(3, bytes) + rest, limit, depth) == header_fields(
            HeaderView { parent_hash: bytes, ..h },
            rest,
            limit,
            depth,
        ),
{
    lemma_header_number_counts(h, 1, n, rest, limit, depth);
    lemma_header_number_counts(h, 4, n, rest, limit, depth);
    lemma_header_number_counts(h, 5, n, rest, limit, depth);
    lemma_header_bytes_count(h, 2, bytes, rest, limit, depth);
    lemma_header_bytes_count(h, 3, bytes, rest, limit, depth);
}

proof fn lemma_header_number_counts(h: HeaderView, tag: u32, n: i64, rest: Seq<u8>, limit: nat, depth: nat)
    requires
        limit <= rest.len(),
        tag == 1 || tag == 4 || tag == 5,
    ensures
        header_fields(h, key_bytes(tag as nat, 0) + (varint_bytes((n as u64) as nat) + rest), limit, depth)
            == header_fields(
            if tag == 1 {
                HeaderView { number: n, ..h }
            } else if tag == 4 {
                HeaderView { timestamp: n, ..h }
            } else {
                HeaderView { final_block_number: n, ..h }
            },
            rest,
            limit,
            depth,
        ),
{
    let body = varint_bytes((n as u64) as nat);
    lemma_varint_read_back(n as u64, rest);
    lemma_key_read_back(tag, 0, body + rest);
    lemma_int64_read_back(n, rest);
}

proof fn lemma_header_bytes_count(h: HeaderView, tag: u32, bytes: Seq<u8>, rest: Seq<u8>, limit: nat, depth: nat)
    requires
        limit <= rest.len(),
        bytes.len() <= u64::MAX,
        tag == 2 || tag == 3,
    ensures
        header_fields(h, delimited_field(tag as nat, bytes) + rest, limit, depth) == header_fields(
            if tag == 2 {
                HeaderView { hash: bytes, ..h }
            } else {
                HeaderView { parent_hash: bytes, ..h }
            },
            rest,
            limit,
            depth,
        ),
{
    let body = varint_bytes(bytes.len()) + bytes;
    lemma_key_read_back(tag, 2, body + rest);
    lemma_bytes_read_back(bytes, rest);
    lemma_grouped(key_bytes(tag as nat, 2), body, rest);
}

/// The fields of a log, in any order and however often: of the address, the
/// tag, the transaction and the index the last one counts; each of the fields
/// is added to those before it; the others stay as they were. Of a number that
/// is too large for an index the low bits count.
pub proof fn law_log_field_counts(l: LogView, n: u64, bytes: Seq<u8>, rest: Seq<u8>, limit: nat, depth: nat)
    requires
        limit <= rest.len(),
        bytes.len() <= u64::MAX,
    ensures
        log_fields(l, delimited_field(1, bytes) + rest, limit, depth) == log_fields(
            LogView { contract_address: bytes, ..l },
            rest,
            limit,
            depth,
        ),
        log_fields(l, delimited_field(2, bytes) + rest, limit, depth) == log_fields(
            LogView { tag: bytes, ..l },
            rest,
            limit,
            depth,
        ),
        log_fields(l, delimited_field(3, bytes) + rest, limit, depth) == log_fields(
            LogView { fields: l.fields.push(bytes), ..l },
            rest,
            limit,
            depth,
        ),
        log_fields(l, delimited_field(4, bytes) + rest, limit, depth) == log_fields(
            LogView { tx_hash: bytes, ..l },
            rest,
            limit,
            depth,
        ),
        log_fields(l, key_bytes(5, 0) + (varint_bytes(n as nat) + rest), limit, depth) == log_fields(
            LogView { log_index: (n % 0x1_0000_0000) as u32, ..l },
            rest,
            limit,
            depth,
        ),
{
    lemma_log_bytes_count(l, 1, bytes, rest, limit, depth);
    lemma_log_bytes_count(l, 2, bytes, rest, limit, depth);
    lemma_log_bytes_count(l, 3, bytes, rest, limit, depth);
    lemma_log_bytes_count(l, 4, bytes, rest, limit, depth);
    let body = varint_bytes(n as nat);
    lemma_varint_read_back(n, rest);
    lemma_key_read_back(5, 0, body + rest);
    assert(n as u32 == (n % 0x1_0000_0000) as u32) by (bit_vector);
}

proof fn lemma_log_bytes_count(l: LogView, tag: u32, bytes: Seq<u8>, rest: Seq<u8>, limit: nat, depth: nat)
    requires
        limit <= rest.len(),
        bytes.len() <= u64::MAX,
        1 <= tag <= 4,
    ensures
        log_fields(l, delimited_field(tag as nat, bytes) + rest, limit, depth) == log_fields(
            if tag == 1 {
                LogView { contract_address: bytes, ..l }
            } else if tag == 2 {
                LogView { tag: bytes, ..l }
            } else if tag == 3 {
                LogView { fields: l.fields.push(bytes), ..l }
            } else {
                LogView { tx_hash: bytes, ..l }
            },
            rest,
            limit,
            depth,
        ),
{
    let body = varint_bytes(bytes.len()) + bytes;
    lemma_key_read_back(tag, 2, body + rest);
    lemma_bytes_read_back(bytes, rest);
    lemma_grouped(key_bytes(tag as nat, 2), body, rest);
}

/// The fields of a block, in any order and however often: a header that comes
/// in pieces is put together, each part from the last piece that has it, and
/// each log is added behind those before it.
pub proof fn law_block_field_counts(b: BlockView, h: HeaderView, l: LogView, rest: Seq<u8>, depth: nat)
    requires
        depth > 0,
        header_bytes(h).len() <= u64::MAX,
        log_bytes(l).len() <= u64::MAX,
    ensures
        block_fields(b, delimited_field(1, header_bytes(h)) + rest, depth) == block_fields(
            BlockView {
                header: Some(
                    match b.header {
                        Some(g) => header_merged(g, h),
                        None => h,
                    },
                ),
                ..b
            },
            rest,
            depth,
        ),
        block_fields(b, delimited_field(2, log_bytes(l)) + rest, depth) == block_fields(
            BlockView { public_logs: b.public_logs.push(l), ..b },
            rest,
            depth,
        ),
{
    lemma_block_header_counts(b, h, rest, depth);
    lemma_block_log_counts(b, l, rest, depth);
}

proof fn lemma_block_header_counts(b: BlockView, h: HeaderView, rest: Seq<u8>, depth: nat)
    requires
        depth > 0,
        header_bytes(h).len() <= u64::MAX,
    ensures
        block_fields(b, delimited_field(1, header_bytes(h)) + rest, depth) == block_fields(
            BlockView {
                header: Some(
                    match b.header {
                        Some(g) => header_merged(g, h),
                        None => h,
                    },
                ),
                ..b
            },
            rest,
            depth,
        ),
{
    let part = header_bytes(h);
    let body = varint_bytes(part.len()) + part;
    let g = match b.header {
        Some(g) => g,
        None => blank_header(),
    };
    lemma_key_read_back(1, 2, body + rest);
    lemma_message_read_back(part, rest, depth);
    lemma_header_read_back(g, h, rest, (depth - 1) as nat);
    lemma_header_merged_blank(h);
    lemma_grouped(key_bytes(1, 2), body, rest);
}

proof fn lemma_block_log_counts(b: BlockView, l: LogView, rest: Seq<u8>, depth: nat)
    requires
        depth > 0,
        log_bytes(l).len() <= u64::MAX,
    ensures
        block_fields(b, delimited_field(2, log_bytes(l)) + rest, depth) == block_fields(
            BlockView { public_logs: b.public_logs.push(l), ..b },
            rest,
            depth,
        ),
{
    let part = log_bytes(l);
    let body = varint_bytes(part.len()) + part;
    lemma_key_read_back(2, 2, body + rest);
    lemma_message_read_back(part, rest, depth);
    lemma_log_read_back(l, rest, (depth - 1) as nat);
    lemma_grouped(key_bytes(2, 2), body, rest);
}

/// Numbers and bytes in fields that nothing is known of make no difference, in
/// a header, in a log and in a block.
pub proof fn law_unknown_fields(
    h: HeaderView,
    l: LogView,
    b: BlockView,
    tag: u32,
    n: u64,
    bytes: Seq<u8>,
    rest: Seq<u8>,
    limit: nat,
    depth: nat,
)
    requires
        6 <= tag <= 0x1fff_ffff,
        limit <= rest.len(),
        depth > 0,
        bytes.len() <= u64::MAX,
    ensures
        header_fields(h, key_bytes(tag as nat, 0) + (varint_bytes(n as nat) + rest), limit, depth)
            == header_fields(h, rest, limit, depth),
        header_fields(h, delimited_field(tag as nat, bytes) + rest, limit, depth) == header_fields(
            h,
            rest,
            limit,
            depth,
        ),
        log_fields(l, key_bytes(tag as nat, 0) + (varint_bytes(n as nat) + rest), limit, depth)
            == log_fields(l, rest, limit, depth),
        log_fields(l, delimited_field(tag as nat, bytes) + rest, limit, depth) == log_fields(
            l,
            rest,
            limit,
            depth,
        ),
        block_fields(b, key_bytes(tag as nat, 0) + (varint_bytes(n as nat) + rest), depth)
            == block_fields(b, rest, depth),
        block_fields(b, delimited_field(tag as nat, bytes) + rest, depth) == block_fields(b, rest, depth),
{
    let number = varint_bytes(n as nat);
    let body = varint_bytes(bytes.len()) + bytes;
    lemma_varint_read_back(n, rest);
    lemma_key_read_back(tag, 0, number + rest);
    lemma_key_read_back(tag, 2, body + rest);
    lemma_length_read_back(bytes, rest);
    lemma_bytes_behind(body + rest, bytes, rest);
    lemma_grouped(key_bytes(tag as nat, 2), body, rest);
    assert((bytes + rest).skip(bytes.len() as int) =~= rest);
    assert(skip_read(WireType::Varint, tag, number + rest, depth) == Ok::<Seq<u8>, WireError>(rest));
    assert(skip_read(WireType::LengthDelimited, tag, body + rest, depth) == Ok::<Seq<u8>, WireError>(
        rest,
    ));
}

} // verus!
