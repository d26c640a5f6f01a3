//! The wire format of serialized metadata: varints and field keys, as the `prost` crate reads and
//! writes them.
//!
//! Everything this crate believes of `prost` without proof stands in this module.

use prost::DecodeError;
use vstd::prelude::*;

verus! {

/// The error of `prost`'s decoding functions, carried through as an opaque value.
#[verifier::external_type_specification]
#[verifier::external_body]
pub struct ExDecodeError(DecodeError);

/// The wire type of a varint field.
pub const WIRE_VARINT: u8 = 0;

/// The wire type of a field that is preceded by its length.
pub const WIRE_LENGTH_DELIMITED: u8 = 2;

/// The bytes of a varint: seven bits each, the lowest first, with the top bit set in all but the
/// last.
pub open spec fn varint_bytes(n: nat) -> Seq<u8>
    decreases n,
{
    if n < 128 {
        seq![n as u8]
    } else {
        seq![(n % 128 + 128) as u8] + varint_bytes(n / 128)
    }
}

/// The number that a varint spells from its byte `i` on, and where it ends; `None` where it does
/// not end within ten bytes, or spells more than 64 bits.
pub open spec fn read_varint_from(bytes: Seq<u8>, i: int) -> Option<(nat, int)>
    decreases 10 - i,
{
    if i >= 10 || i >= bytes.len() {
        None
    } else if bytes[i] < 128 {
        if i == 9 && bytes[i] >= 2 {
            None
        } else {
            Some((bytes[i] as nat, i + 1))
        }
    } else {
        match read_varint_from(bytes, i + 1) {
            None => None,
            Some((high, end)) => Some(((bytes[i] - 128 + 128 * high) as nat, end)),
        }
    }
}

/// The number that the varint at the start of `bytes` spells, and where it ends.
pub open spec fn read_varint(bytes: Seq<u8>) -> Option<(nat, int)> {
    read_varint_from(bytes, 0)
}

/// The tag and the wire type of the field key at the start of `bytes`, and where it ends; `None`
/// where the key is no 32-bit varint, its wire type is unknown, or its tag is 0.
pub open spec fn read_key(bytes: Seq<u8>) -> Option<(nat, nat, int)> {
    match read_varint(bytes) {
        None => None,
        Some((key, end)) => if key <= u32::MAX && key % 8 <= 5 && key / 8 >= 1 {
            Some((key / 8, key % 8, end))
        } else {
            None
        },
    }
}

/// What `prost::encoding::skip_field` leaves of `bytes` behind a field of this wire type and tag,
/// whose key was read before; `None` where it reports an error.
pub uninterp spec fn after_field(wire_type: u8, tag: u32, bytes: Seq<u8>) -> Option<Seq<u8>>;

/// Whether `prost::encoding::message::merge` skips all fields of the message at the start of
/// `bytes`, which stands behind its length as a field of another message does.
pub uninterp spec fn nested_message_skips(bytes: Seq<u8>) -> bool;

/// `prost::encoding::encode_varint`: it appends the bytes of the varint.
#[verifier::external_body]
pub(crate) fn encode_varint(value: u64, buf: &mut Vec<u8>)
    ensures
        final(buf)@ == old(buf)@ + varint_bytes(value as nat),
{
    prost::encoding::encode_varint(value, buf);
}

/// `prost::encoding::decode_varint`: it reads the varint at the start and leaves what follows, and
/// fails exactly where there is none that ends within ten bytes and fits 64 bits.
#[verifier::external_body]
pub(crate) fn decode_varint(bytes: &[u8]) -> (decoded: Result<(u64, &[u8]), DecodeError>)
    ensures
        match decoded {
            Ok((value, rest)) => read_varint(bytes@) matches Some((n, end)) && value == n
                && rest@ == bytes@.skip(end),
            Err(_) => read_varint(bytes@) is None,
        },
{
    let mut rest: &[u8] = bytes;
    let value = prost::encoding::decode_varint(&mut rest)?;
    Ok((value, rest))
}

/// `prost::encoding::decode_key`: it reads the key at the start, as tag and wire type, and leaves
/// what follows, and fails exactly where the varint there is missing, exceeds 32 bits, or holds an
/// unknown wire type or the tag 0.
#[verifier::external_body]
pub(crate) fn decode_key(bytes: &[u8]) -> (decoded: Result<(u32, u8, &[u8]), DecodeError>)
    ensures
        match decoded {
            Ok((tag, wire_type, rest)) => read_key(bytes@) matches Some((t, w, end)) && tag == t
                && wire_type == w && rest@ == bytes@.skip(end),
            Err(_) => read_key(bytes@) is None,
        },
{
    let mut rest: &[u8] = bytes;
    let (tag, wire_type) = prost::encoding::decode_key(&mut rest)?;
    Ok((tag, wire_type as u8, rest))
}

/// `prost::encoding::skip_field`, with the limit on nested groups that a message starts with: what
/// it leaves follows from the wire type, the tag and the bytes, and is an end of them.
///
/// Which bytes make up a field that is skipped is not said.
#[verifier::external_body]
pub(crate) fn skip_field(wire_type: u8, tag: u32, bytes: &[u8]) -> (skipped: Result<
    &[u8],
    DecodeError,
>)
    requires
        wire_type <= 5,
    ensures
        match skipped {
            Ok(rest) => {
                &&& after_field(wire_type, tag, bytes@) == Some(rest@)
                &&& rest@.len() <= bytes@.len()
                &&& rest@ == bytes@.skip(bytes@.len() - rest@.len())
            },
            Err(_) => after_field(wire_type, tag, bytes@) is None,
        },
{
    let mut rest: &[u8] = bytes;
    let wire = prost::encoding::WireType::try_from(u64::from(wire_type))?;
    prost::encoding::skip_field(wire, tag, &mut rest, prost::encoding::DecodeContext::default())?;
    Ok(rest)
}

/// `prost::encoding::message::merge` into a message without fields, with the limit on nested groups
/// that the message around it starts with: whether it skips every field follows from the bytes.
///
/// Which bytes make up such a message is not said.
#[verifier::external_body]
pub(crate) fn skip_nested_message(bytes: &[u8]) -> (skipped: Result<(), DecodeError>)
    ensures
        skipped is Ok <==> nested_message_skips(bytes@),
{
    let mut rest: &[u8] = bytes;
    let context = prost::encoding::DecodeContext::default();
    let wire_type = prost::encoding::WireType::LengthDelimited;
    prost::encoding::message::merge(wire_type, &mut (), &mut rest, context)
}

/// The largest number that can stand from byte `i` of a varint on.
spec fn varint_limit(i: int) -> nat
    decreases i,
{
    if i <= 0 {
        u64::MAX as nat
    } else {
        varint_limit(i - 1) / 128
    }
}

proof fn lemma_varint_limit()
    ensures
        varint_limit(9) == 1,
{
    assert(varint_limit(0) == 18446744073709551615);
    assert(varint_limit(1) == 144115188075855871);
    assert(varint_limit(2) == 1125899906842623);
    assert(varint_limit(3) == 8796093022207);
    assert(varint_limit(4) == 68719476735);
    assert(varint_limit(5) == 536870911);
    assert(varint_limit(6) == 4194303);
    assert(varint_limit(7) == 32767);
    assert(varint_limit(8) == 255);
    assert(varint_limit(9) == 1);
}

/// A varint is read back from its bytes, whatever stands before and behind them.
proof fn lemma_varint_from(bytes: Seq<u8>, i: int, n: nat)
    requires
        0 <= i <= 9,
        n <= varint_limit(i),
        i + varint_bytes(n).len() <= bytes.len(),
        bytes.subrange(i, i + varint_bytes(n).len() as int) == varint_bytes(n),
    ensures
        read_varint_from(bytes, i) == Some((n, i + varint_bytes(n).len() as int)),
    decreases n,
{
    lemma_varint_limit();
    let spelled = varint_bytes(n);
    let window = bytes.subrange(i, i + spelled.len() as int);
    assert(bytes[i] == window[0]);
    if n < 128 {
        assert(bytes[i] == n);
        if i == 9 {
            assert(bytes[i] <= 1);
        }
    } else {
        let rest = varint_bytes(n / 128);
        assert(bytes[i] == n % 128 + 128);
        assert(bytes.subrange(i + 1, i + 1 + rest.len() as int) =~= window.skip(1));
        assert(window.skip(1) =~= rest);
        assert(n / 128 <= varint_limit(i) / 128);
        lemma_varint_from(bytes, i + 1, n / 128);
    }
}

/// What was written as a varint is read back as it was, whatever follows it.
pub proof fn law_varint_roundtrip(n: nat, rest: Seq<u8>)
    requires
        n <= u64::MAX,
    ensures
        read_varint(varint_bytes(n) + rest) == Some((n, varint_bytes(n).len() as int)),
{
    let bytes = varint_bytes(n) + rest;
    assert(bytes.subrange(0, varint_bytes(n).len() as int) =~= varint_bytes(n));
    lemma_varint_from(bytes, 0, n);
}

/// A varint ends behind its start and within its bytes.
pub proof fn lemma_varint_end(bytes: Seq<u8>, i: int)
    requires
        0 <= i,
    ensures
        read_varint_from(bytes, i) matches Some((n, end)) ==> i < end <= bytes.len(),
    decreases 10 - i,
{
    if i < 10 && i < bytes.len() {
        lemma_varint_end(bytes, i + 1);
    }
}

/// The bytes of a varint hold seven bits of the number each, the lowest first: a number below 128 is
/// one byte, and of any other the first byte holds the rest by 128, with the top bit set, and the
/// bytes behind it are those of the quotient.
pub proof fn law_varint_bytes(n: nat)
    ensures
        n < 128 ==> varint_bytes(n).len() == 1 && varint_bytes(n)[0] == n,
        n >= 128 ==> {
            &&& varint_bytes(n)[0] == 128 + n % 128
            &&& varint_bytes(n).skip(1) == varint_bytes(n / 128)
        },
{
    if n >= 128 {
        assert(varint_bytes(n).skip(1) =~= varint_bytes(n / 128));
    }
}

} // verus!
