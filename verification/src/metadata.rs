//! Frame metadata, and its serialized form.
//!
//! The serialized form is the message
//!
//! ```text
//! message Lz4Metadata { repeated Lz4FrameMetadata frames = 1; }
//! message Lz4FrameMetadata { uint64 uncompressed_size = 1; uint64 n_values = 2; }
//! ```

use crate::bytes::push_bytes;
use crate::error::Lz4Error;
use crate::wire::after_field;
use crate::wire::decode_key;
use crate::wire::decode_varint;
use crate::wire::encode_varint;
use crate::wire::law_varint_roundtrip;
use crate::wire::lemma_varint_end;
use crate::wire::nested_message_skips;
use crate::wire::read_key;
use crate::wire::read_varint;
use crate::wire::skip_field;
use crate::wire::skip_nested_message;
use crate::wire::varint_bytes;
use crate::wire::WIRE_LENGTH_DELIMITED;
use crate::wire::WIRE_VARINT;
use vstd::prelude::*;

verus! {

/// Metadata for one LZ4 frame.
#[derive(Clone, Copy, Debug, PartialEq, Eq, Structural)]
pub struct Lz4FrameMetadata {
    /// Uncompressed byte size of this frame.
    pub uncompressed_size: u64,
    /// Number of valid values stored in this frame.
    pub n_values: u64,
}

/// Metadata for an encoded array.
#[derive(Debug)]
pub struct Lz4Metadata {
    /// Metadata for each compressed frame.
    pub frames: Vec<Lz4FrameMetadata>,
}

impl View for Lz4Metadata {
    type V = Seq<Lz4FrameMetadata>;

    open spec fn view(&self) -> Seq<Lz4FrameMetadata> {
        self.frames@
    }
}

impl Clone for Lz4Metadata {
    fn clone(&self) -> (copy: Self)
        ensures
            copy@ == self@,
    {
        Lz4Metadata { frames: vstd::slice::slice_to_vec(self.frames.as_slice()) }
    }
}

/// A varint field: its key and its value, or nothing where the value is 0.
pub open spec fn varint_field(tag: nat, value: nat) -> Seq<u8> {
    if value == 0 {
        Seq::empty()
    } else {
        varint_bytes(8 * tag) + varint_bytes(value)
    }
}

/// The serialized form of one frame's metadata.
pub open spec fn frame_message(meta: Lz4FrameMetadata) -> Seq<u8> {
    varint_field(1, meta.uncompressed_size as nat) + varint_field(2, meta.n_values as nat)
}

/// One frame's metadata as a field of the whole: the key, the length, and the message.
pub open spec fn frame_field(meta: Lz4FrameMetadata) -> Seq<u8> {
    varint_bytes(10) + varint_bytes(frame_message(meta).len()) + frame_message(meta)
}

/// The serialized form of the metadata of all frames.
pub open spec fn metadata_message(metas: Seq<Lz4FrameMetadata>) -> Seq<u8>
    decreases metas.len(),
{
    if metas.len() == 0 {
        Seq::empty()
    } else {
        metadata_message(metas.drop_last()) + frame_field(metas.last())
    }
}

/// The metadata of a frame that says nothing of it.
pub open spec fn empty_frame() -> Lz4FrameMetadata {
    Lz4FrameMetadata { uncompressed_size: 0, n_values: 0 }
}

/// Whether a field that stands alone in `bytes` can be skipped in a message: in one that is nested
/// in another, groups nest one level less deep.
pub open spec fn skippable(bytes: Seq<u8>, nested: bool) -> bool {
    nested ==> nested_message_skips(varint_bytes(bytes.len()) + bytes)
}

/// One frame's metadata, read from its serialized form on top of what was read before: of a field
/// that stands there twice the last counts, and unknown fields are skipped. `None` where the bytes
/// are no such message. `nested` tells whether the message is nested in another.
pub open spec fn parse_frame(bytes: Seq<u8>, before: Lz4FrameMetadata, nested: bool) -> Option<
    Lz4FrameMetadata,
>
    decreases bytes.len(),
{
    if bytes.len() == 0 {
        Some(before)
    } else {
        match read_key(bytes) {
            None => None,
            Some((tag, wire_type, end)) => {
                let rest = bytes.skip(end);
                if tag == 1 || tag == 2 {
                    match read_varint(rest) {
                        Some((value, value_end)) if wire_type == WIRE_VARINT && rest.skip(
                            value_end,
                        ).len() < bytes.len() => parse_frame(
                            rest.skip(value_end),
                            if tag == 1 {
                                Lz4FrameMetadata { uncompressed_size: value as u64, ..before }
                            } else {
                                Lz4FrameMetadata { n_values: value as u64, ..before }
                            },
                            nested,
                        ),
                        _ => None,
                    }
                } else {
                    match after_field(wire_type as u8, tag as u32, rest) {
                        Some(behind) if behind.len() < bytes.len() && skippable(
                            bytes.take(bytes.len() - behind.len()),
                            nested,
                        ) => parse_frame(behind, before, nested),
                        _ => None,
                    }
                }
            },
        }
    }
}

/// The metadata of all frames, read from its serialized form behind what was read before; unknown
/// fields are skipped. `None` where the bytes are no such message.
pub open spec fn parse_metadata(bytes: Seq<u8>, before: Seq<Lz4FrameMetadata>) -> Option<
    Seq<Lz4FrameMetadata>,
>
    decreases bytes.len(),
{
    if bytes.len() == 0 {
        Some(before)
    } else {
        match read_key(bytes) {
            None => None,
            Some((tag, wire_type, end)) => {
                let rest = bytes.skip(end);
                if tag == 1 {
                    match read_varint(rest) {
                        Some((len, len_end)) if wire_type == WIRE_LENGTH_DELIMITED && len_end + len
                            <= rest.len() && rest.skip(len_end + len).len() < bytes.len() =>
                            match parse_frame(
                            rest.subrange(len_end, len_end + len),
                            empty_frame(),
                            true,
                        ) {
                            Some(meta) => parse_metadata(
                                rest.skip(len_end + len),
                                before.push(meta),
                            ),
                            None => None,
                        },
                        _ => None,
                    }
                } else {
                    match after_field(wire_type as u8, tag as u32, rest) {
                        Some(behind) if behind.len() < bytes.len() => parse_metadata(
                            behind,
                            before,
                        ),
                        _ => None,
                    }
                }
            },
        }
    }
}

/// Appends a varint field, unless its value is 0.
fn encode_varint_field(tag: u64, value: u64, buf: &mut Vec<u8>)
    requires
        tag < 100,
    ensures
        final(buf)@ == old(buf)@ + varint_field(tag as nat, value as nat),
{
    if value != 0 {
        encode_varint(8 * tag, buf);
        encode_varint(value, buf);
    }
    assert(buf@ =~= old(buf)@ + varint_field(tag as nat, value as nat));
}

impl Lz4FrameMetadata {
    /// The serialized form.
    pub fn encode_to_vec(&self) -> (bytes: Vec<u8>)
        ensures
            bytes@ == frame_message(*self),
    {
        let mut buf: Vec<u8> = Vec::new();
        encode_varint_field(1, self.uncompressed_size, &mut buf);
        encode_varint_field(2, self.n_values, &mut buf);
        assert(buf@ =~= frame_message(*self));
        buf
    }

    /// Reads the serialized form.
    ///
    /// # Errors
    ///
    /// Returns [`Lz4Error::InvalidMetadata`] where the bytes are no such message.
    pub fn decode(bytes: &[u8]) -> (meta: Result<Self, Lz4Error>)
        ensures
            match meta {
                Ok(m) => parse_frame(bytes@, empty_frame(), false) == Some(m),
                Err(e) => parse_frame(bytes@, empty_frame(), false) is None && e
                    == Lz4Error::InvalidMetadata,
            },
    {
        Lz4FrameMetadata::decode_fields(bytes, false)
    }

    /// Reads the serialized form, by itself or nested in another message.
    fn decode_fields(bytes: &[u8], nested: bool) -> (meta: Result<Self, Lz4Error>)
        ensures
            match meta {
                Ok(m) => parse_frame(bytes@, empty_frame(), nested) == Some(m),
                Err(e) => parse_frame(bytes@, empty_frame(), nested) is None && e
                    == Lz4Error::InvalidMetadata,
            },
    {
        let mut meta = Lz4FrameMetadata { uncompressed_size: 0, n_values: 0 };
        let mut rest: &[u8] = bytes;
        while rest.len() > 0
            invariant
                parse_frame(rest@, meta, nested) == parse_frame(bytes@, empty_frame(), nested),
            decreases rest@.len(),
        {
            proof {
                lemma_varint_end(rest@, 0);
            }
            match decode_key(rest) {
                Err(_) => {
                    return Err(Lz4Error::InvalidMetadata);
                },
                Ok((tag, wire_type, behind_key)) => {
                    if tag == 1 || tag == 2 {
                        if wire_type != WIRE_VARINT {
                            return Err(Lz4Error::InvalidMetadata);
                        }
                        proof {
                            lemma_varint_end(behind_key@, 0);
                        }
                        match decode_varint(behind_key) {
                            Err(_) => {
                                return Err(Lz4Error::InvalidMetadata);
                            },
                            Ok((value, behind)) => {
                                if tag == 1 {
                                    meta.uncompressed_size = value;
                                } else {
                                    meta.n_values = value;
                                }
                                rest = behind;
                            },
                        }
                    } else {
                        match skip_field(wire_type, tag, behind_key) {
                            Err(_) => {
                                return Err(Lz4Error::InvalidMetadata);
                            },
                            Ok(behind) => {
                                let field: &[u8] = &rest[0..rest.len() - behind.len()];
                                assert(field@ =~= rest@.take(rest@.len() - behind@.len()));
                                if !is_skippable(field, nested) {
                                    return Err(Lz4Error::InvalidMetadata);
                                }
                                rest = behind;
                            },
                        }
                    }
                },
            }
        }
        Ok(meta)
    }
}

/// Whether a field that stands alone in `bytes` can be skipped in a message.
fn is_skippable(bytes: &[u8], nested: bool) -> (fine: bool)
    ensures
        fine == skippable(bytes@, nested),
{
    if !nested {
        return true;
    }
    let mut framed: Vec<u8> = Vec::new();
    encode_varint(bytes.len() as u64, &mut framed);
    push_bytes(&mut framed, bytes);
    assert(framed@ =~= varint_bytes(bytes@.len()) + bytes@);
    skip_nested_message(framed.as_slice()).is_ok()
}

impl Lz4Metadata {
    /// The serialized form.
    pub fn encode_to_vec(&self) -> (bytes: Vec<u8>)
        ensures
            bytes@ == metadata_message(self@),
            bytes@ == metadata_message(self.frames@),
    {
        let mut buf: Vec<u8> = Vec::new();
        let mut i: usize = 0;
        while i < self.frames.len()
            invariant
                i <= self.frames@.len(),
                buf@ == metadata_message(self.frames@.take(i as int)),
            decreases self.frames@.len() - i,
        {
            let message: Vec<u8> = self.frames[i].encode_to_vec();
            let ghost before = buf@;
            encode_varint(10, &mut buf);
            encode_varint(message.len() as u64, &mut buf);
            push_bytes(&mut buf, message.as_slice());
            assert(self.frames@.take(i + 1).drop_last() =~= self.frames@.take(i as int));
            assert(buf@ =~= before + frame_field(self.frames@[i as int]));
            i += 1;
        }
        assert(self.frames@.take(self.frames@.len() as int) =~= self.frames@);
        buf
    }

    /// Reads the serialized form.
    ///
    /// # Errors
    ///
    /// Returns [`Lz4Error::InvalidMetadata`] where the bytes are no such message.
    pub fn decode(bytes: &[u8]) -> (metadata: Result<Self, Lz4Error>)
        ensures
            match metadata {
                Ok(m) => parse_metadata(bytes@, Seq::empty()) == Some(m@) && parse_metadata(
                    bytes@,
                    Seq::empty(),
                ) == Some(m.frames@),
                Err(e) => parse_metadata(bytes@, Seq::empty()) is None && e
                    == Lz4Error::InvalidMetadata,
            },
    {
        let mut frames: Vec<Lz4FrameMetadata> = Vec::new();
        let mut rest: &[u8] = bytes;
        while rest.len() > 0
            invariant
                parse_metadata(rest@, frames@) == parse_metadata(bytes@, Seq::empty()),
            decreases rest@.len(),
        {
            proof {
                lemma_varint_end(rest@, 0);
            }
            match decode_key(rest) {
                Err(_) => {
                    return Err(Lz4Error::InvalidMetadata);
                },
                Ok((tag, wire_type, behind_key)) => {
                    if tag == 1 {
                        if wire_type != WIRE_LENGTH_DELIMITED {
                            return Err(Lz4Error::InvalidMetadata);
                        }
                        proof {
                            lemma_varint_end(behind_key@, 0);
                        }
                        match decode_varint(behind_key) {
                            Err(_) => {
                                return Err(Lz4Error::InvalidMetadata);
                            },
                            Ok((len, behind_len)) => {
                                if len > behind_len.len() as u64 {
                                    return Err(Lz4Error::InvalidMetadata);
                                }
                                let ghost (_, len_end) = read_varint(behind_key@)->0;
                                let n: usize = len as usize;
                                let message: &[u8] = &behind_len[0..n];
                                let behind: &[u8] = &behind_len[n..behind_len.len()];
                                proof {
                                    assert(message@ =~= behind_key@.subrange(
                                        len_end,
                                        len_end + len,
                                    ));
                                    assert(behind@ =~= behind_key@.skip(len_end + len));
                                }
                                match Lz4FrameMetadata::decode_fields(message, true) {
                                    Err(e) => {
                                        return Err(e);
                                    },
                                    Ok(meta) => {
                                        frames.push(meta);
                                    },
                                }
                                rest = behind;
                            },
                        }
                    } else {
                        match skip_field(wire_type, tag, behind_key) {
                            Err(_) => {
                                return Err(Lz4Error::InvalidMetadata);
                            },
                            Ok(behind) => {
                                rest = behind;
                            },
                        }
                    }
                },
            }
        }
        Ok(Lz4Metadata { frames })
    }
}

/// Reading a varint field.
proof fn lemma_read_varint_field(
    tag: nat,
    value: nat,
    rest: Seq<u8>,
    before: Lz4FrameMetadata,
    nested: bool,
)
    requires
        tag == 1 || tag == 2,
        value <= u64::MAX,
    ensures
        parse_frame(varint_field(tag, value) + rest, before, nested) == parse_frame(
            rest,
            if value == 0 {
                before
            } else if tag == 1 {
                Lz4FrameMetadata { uncompressed_size: value as u64, ..before }
            } else {
                Lz4FrameMetadata { n_values: value as u64, ..before }
            },
            nested,
        ),
{
    let bytes = varint_field(tag, value) + rest;
    if value == 0 {
        assert(bytes =~= rest);
    } else {
        let key = varint_bytes(8 * tag);
        let spelled = varint_bytes(value);
        assert(bytes =~= key + (spelled + rest));
        law_varint_roundtrip(8 * tag, spelled + rest);
        assert(bytes.skip(key.len() as int) =~= spelled + rest);
        law_varint_roundtrip(value, rest);
        assert((spelled + rest).skip(spelled.len() as int) =~= rest);
        lemma_varint_end(bytes, 0);
    }
}

/// What was written as one frame's metadata is read back as it was, by itself and nested in another
/// message.
pub proof fn law_frame_message_roundtrip(meta: Lz4FrameMetadata, nested: bool)
    ensures
        parse_frame(frame_message(meta), empty_frame(), nested) == Some(meta),
{
    let size = meta.uncompressed_size as nat;
    let n_values = meta.n_values as nat;
    lemma_read_varint_field(1, size, varint_field(2, n_values), empty_frame(), nested);
    let read = Lz4FrameMetadata { uncompressed_size: meta.uncompressed_size, n_values: 0 };
    assert(varint_field(2, n_values) + Seq::<u8>::empty() =~= varint_field(2, n_values));
    lemma_read_varint_field(2, n_values, Seq::empty(), read, nested);
}

/// The length of a varint of a 64-bit number.
proof fn lemma_varint_len(n: nat)
    requires
        n <= u64::MAX,
    ensures
        1 <= varint_bytes(n).len() <= 10,
{
    law_varint_roundtrip(n, Seq::empty());
    lemma_varint_ten(varint_bytes(n) + Seq::empty(), 0);
    lemma_varint_end(varint_bytes(n) + Seq::empty(), 0);
}

/// A varint that is read ends within ten bytes.
proof fn lemma_varint_ten(bytes: Seq<u8>, i: int)
    ensures
        crate::wire::read_varint_from(bytes, i) matches Some((n, end)) ==> end <= 10,
    decreases 10 - i,
{
    if i < 10 {
        lemma_varint_ten(bytes, i + 1);
    }
}

/// What was serialized as the metadata of all frames is read back as it was, behind what was read
/// before.
proof fn lemma_parse_metadata(
    metas: Seq<Lz4FrameMetadata>,
    rest: Seq<u8>,
    before: Seq<Lz4FrameMetadata>,
)
    ensures
        parse_metadata(metadata_message(metas) + rest, before) == parse_metadata(
            rest,
            before + metas,
        ),
    decreases metas.len(),
{
    if metas.len() == 0 {
        assert(metadata_message(metas) + rest =~= rest);
        assert(before + metas =~= before);
    } else {
        let front = metas.drop_last();
        let meta = metas.last();
        let message = frame_message(meta);
        let field = frame_field(meta);
        assert(metadata_message(metas) + rest =~= metadata_message(front) + (field + rest));
        lemma_parse_metadata(front, field + rest, before);
        // the field itself
        lemma_varint_len(meta.uncompressed_size as nat);
        lemma_varint_len(meta.n_values as nat);
        lemma_varint_len(8);
        lemma_varint_len(16);
        let bytes = field + rest;
        let key = varint_bytes(10);
        let len = varint_bytes(message.len());
        assert(bytes =~= key + (len + (message + rest)));
        law_varint_roundtrip(10, len + (message + rest));
        let behind_key = len + (message + rest);
        assert(bytes.skip(key.len() as int) =~= behind_key);
        law_varint_roundtrip(message.len(), message + rest);
        assert(behind_key.subrange(len.len() as int, len.len() as int + message.len())
            =~= message);
        assert(behind_key.skip(len.len() as int + message.len()) =~= rest);
        lemma_varint_end(bytes, 0);
        law_frame_message_roundtrip(meta, true);
        assert((before + front).push(meta) =~= before + metas);
    }
}

/// What was serialized is read back as it was: decoding the serialized form of the metadata of any
/// frames gives the metadata of those frames.
pub proof fn law_metadata_roundtrip(metas: Seq<Lz4FrameMetadata>)
    ensures
        parse_metadata(metadata_message(metas), Seq::empty()) == Some(metas),
{
    lemma_parse_metadata(metas, Seq::empty(), Seq::empty());
    assert(metadata_message(metas) + Seq::<u8>::empty() =~= metadata_message(metas));
    assert(Seq::<Lz4FrameMetadata>::empty() + metas =~= metas);
}

/// Metadata is serialized as plain numbers behind their keys: the uncompressed size behind the byte
/// 8 and the number of values behind the byte 16, each as the varint of the number itself; a number
/// that is 0 is left out.
pub proof fn law_frame_on_wire(size: u64, n_values: u64)
    ensures
        ({
            let message = frame_message(
                Lz4FrameMetadata { uncompressed_size: size, n_values },
            );
            &&& size != 0 && n_values != 0 ==> message == seq![0x08u8] + varint_bytes(size as nat)
                + seq![0x10u8] + varint_bytes(n_values as nat)
            &&& size != 0 && n_values == 0 ==> message == seq![0x08u8] + varint_bytes(size as nat)
            &&& size == 0 && n_values != 0 ==> message == seq![0x10u8] + varint_bytes(
                n_values as nat,
            )
            &&& size == 0 && n_values == 0 ==> message == Seq::<u8>::empty()
        }),
{
    let message = frame_message(Lz4FrameMetadata { uncompressed_size: size, n_values });
    assert(varint_bytes(8) =~= seq![0x08u8]);
    assert(varint_bytes(16) =~= seq![0x10u8]);
    if size != 0 && n_values != 0 {
        assert(message =~= seq![0x08u8] + varint_bytes(size as nat) + seq![0x10u8] + varint_bytes(
            n_values as nat,
        ));
    } else if size != 0 {
        assert(message =~= seq![0x08u8] + varint_bytes(size as nat));
    } else if n_values != 0 {
        assert(message =~= seq![0x10u8] + varint_bytes(n_values as nat));
    } else {
        assert(message =~= Seq::<u8>::empty());
    }
}

/// A key byte of one of the two known fields and the varint of any number behind it set that field
/// to that number, whatever was read before and whatever follows.
pub proof fn law_frame_field_is_read(
    value: u64,
    rest: Seq<u8>,
    before: Lz4FrameMetadata,
    nested: bool,
)
    ensures
        parse_frame(seq![0x08u8] + varint_bytes(value as nat) + rest, before, nested)
            == parse_frame(
            rest,
            (Lz4FrameMetadata { uncompressed_size: value, n_values: before.n_values }),
            nested,
        ),
        parse_frame(seq![0x10u8] + varint_bytes(value as nat) + rest, before, nested)
            == parse_frame(
            rest,
            (Lz4FrameMetadata { uncompressed_size: before.uncompressed_size, n_values: value }),
            nested,
        ),
        parse_frame(Seq::empty(), before, nested) == Some(before),
{
    let spelled = varint_bytes(value as nat);
    law_varint_roundtrip(value as nat, rest);
    assert((spelled + rest).skip(spelled.len() as int) =~= rest);
    assert(varint_bytes(8) =~= seq![0x08u8]);
    assert(varint_bytes(16) =~= seq![0x10u8]);
    let first = seq![0x08u8] + spelled + rest;
    assert(first =~= seq![0x08u8] + (spelled + rest));
    law_varint_roundtrip(8, spelled + rest);
    assert(first.skip(1) =~= spelled + rest);
    let second = seq![0x10u8] + spelled + rest;
    assert(second =~= seq![0x10u8] + (spelled + rest));
    law_varint_roundtrip(16, spelled + rest);
    assert(second.skip(1) =~= spelled + rest);
}

/// The two fields in the order in which they are written, each number in its plain varint, are read
/// as those two numbers: for every two 64-bit numbers, by themselves and nested in another message.
pub proof fn law_frame_is_read_from_wire(size: u64, n_values: u64, nested: bool)
    ensures
        empty_frame() == (Lz4FrameMetadata { uncompressed_size: 0, n_values: 0 }),
        parse_frame(
            seq![0x08u8] + varint_bytes(size as nat) + seq![0x10u8] + varint_bytes(n_values as nat),
            empty_frame(),
            nested,
        ) == Some(Lz4FrameMetadata { uncompressed_size: size, n_values }),
        parse_frame(
            seq![0x10u8] + varint_bytes(n_values as nat) + seq![0x08u8] + varint_bytes(size as nat),
            empty_frame(),
            nested,
        ) == Some(Lz4FrameMetadata { uncompressed_size: size, n_values }),
{
    let s = varint_bytes(size as nat);
    let n = varint_bytes(n_values as nat);
    let zero = Lz4FrameMetadata { uncompressed_size: 0, n_values: 0 };
    let only_size = Lz4FrameMetadata { uncompressed_size: size, n_values: 0 };
    let only_count = Lz4FrameMetadata { uncompressed_size: 0, n_values };
    assert(seq![0x08u8] + s + seq![0x10u8] + n =~= seq![0x08u8] + s + (seq![0x10u8] + n));
    law_frame_field_is_read(size, seq![0x10u8] + n, zero, nested);
    assert(seq![0x10u8] + n + Seq::<u8>::empty() =~= seq![0x10u8] + n);
    law_frame_field_is_read(n_values, Seq::empty(), only_size, nested);
    assert(seq![0x10u8] + n + seq![0x08u8] + s =~= seq![0x10u8] + n + (seq![0x08u8] + s));
    law_frame_field_is_read(n_values, seq![0x08u8] + s, zero, nested);
    assert(seq![0x08u8] + s + Seq::<u8>::empty() =~= seq![0x08u8] + s);
    law_frame_field_is_read(size, Seq::empty(), only_count, nested);
}

/// What a message that is not empty starts with decides how it is read. Where no varint stands
/// there, or one that is no key, it is refused. The keys 8 and 16 take the varint behind them as
/// the size and the number of values. A key of the same two fields with another wire type is
/// refused. Any other field is skipped and changes nothing, unless it stands in a nested message and
/// cannot be skipped there.
pub proof fn law_frame_is_read_by_keys(bytes: Seq<u8>, before: Lz4FrameMetadata, nested: bool)
    requires
        bytes.len() > 0,
    ensures
        match read_varint(bytes) {
            None => parse_frame(bytes, before, nested) is None,
            Some((key, end)) => {
                let rest = bytes.skip(end);
                &&& key < 8 || key > 0xffff_ffff || key % 8 > 5 ==> parse_frame(
                    bytes,
                    before,
                    nested,
                ) is None
                &&& (9 <= key <= 13 || 17 <= key <= 21) ==> parse_frame(
                    bytes,
                    before,
                    nested,
                ) is None
                &&& key == 8 ==> parse_frame(bytes, before, nested) == match read_varint(rest) {
                    None => None,
                    Some((value, value_end)) => parse_frame(
                        rest.skip(value_end),
                        (Lz4FrameMetadata {
                            uncompressed_size: value as u64,
                            n_values: before.n_values,
                        }),
                        nested,
                    ),
                }
                &&& key == 16 ==> parse_frame(bytes, before, nested) == match read_varint(rest) {
                    None => None,
                    Some((value, value_end)) => parse_frame(
                        rest.skip(value_end),
                        (Lz4FrameMetadata {
                            uncompressed_size: before.uncompressed_size,
                            n_values: value as u64,
                        }),
                        nested,
                    ),
                }
                &&& 24 <= key <= 0xffff_ffff && key % 8 <= 5 ==> (match after_field(
                    (key % 8) as u8,
                    (key / 8) as u32,
                    rest,
                ) {
                    None => parse_frame(bytes, before, nested) is None,
                    Some(behind) => behind.len() <= rest.len() ==> {
                        let field = bytes.take(bytes.len() - behind.len());
                        let deep = nested && !nested_message_skips(
                            varint_bytes(field.len()) + field,
                        );
                        &&& deep ==> parse_frame(bytes, before, nested) is None
                        &&& !deep ==> parse_frame(bytes, before, nested) == parse_frame(
                            behind,
                            before,
                            nested,
                        )
                    },
                })
            },
        },
{
    lemma_varint_end(bytes, 0);
    if let Some((key, end)) = read_varint(bytes) {
        lemma_varint_end(bytes.skip(end), 0);
    }
}

/// The metadata of all frames is serialized frame by frame, each behind the byte 10 and the varint
/// of the length of its message; of no frames nothing is written.
pub proof fn law_metadata_on_wire(metas: Seq<Lz4FrameMetadata>, meta: Lz4FrameMetadata)
    ensures
        metadata_message(Seq::empty()) == Seq::<u8>::empty(),
        metadata_message(metas.push(meta)) == metadata_message(metas) + seq![0x0au8]
            + varint_bytes(frame_message(meta).len()) + frame_message(meta),
{
    assert(metas.push(meta).drop_last() =~= metas);
    assert(varint_bytes(10) =~= seq![0x0au8]);
    assert(metadata_message(metas.push(meta)) =~= metadata_message(metas) + seq![0x0au8]
        + varint_bytes(frame_message(meta).len()) + frame_message(meta));
}

/// The byte 10, the varint of a length and that many bytes are read as one more frame behind those
/// read before: the frame that those bytes spell, or nothing at all where they spell none.
pub proof fn law_frame_is_read_as_field(
    message: Seq<u8>,
    rest: Seq<u8>,
    before: Seq<Lz4FrameMetadata>,
)
    requires
        message.len() <= u64::MAX,
    ensures
        parse_metadata(
            seq![0x0au8] + varint_bytes(message.len()) + message + rest,
            before,
        ) == match parse_frame(
            message,
            (Lz4FrameMetadata { uncompressed_size: 0, n_values: 0 }),
            true,
        ) {
            None => None,
            Some(meta) => parse_metadata(rest, before.push(meta)),
        },
        parse_metadata(Seq::empty(), before) == Some(before),
{
    let len = varint_bytes(message.len());
    let bytes = seq![0x0au8] + len + message + rest;
    assert(varint_bytes(10) =~= seq![0x0au8]);
    let behind_key = len + (message + rest);
    assert(bytes =~= seq![0x0au8] + behind_key);
    law_varint_roundtrip(10, behind_key);
    assert(bytes.skip(1) =~= behind_key);
    law_varint_roundtrip(message.len(), message + rest);
    assert(behind_key.subrange(len.len() as int, len.len() as int + message.len()) =~= message);
    assert(behind_key.skip(len.len() as int + message.len()) =~= rest);
    lemma_varint_end(bytes, 0);
}

/// What metadata that is not empty starts with decides how it is read. Where no varint stands
/// there, or one that is no key, it is refused. The key 10 takes the varint behind it as the length
/// of a frame's message, which stands behind that. A key of the same field with another wire type
/// is refused, and so is a length beyond the end. Any other field is skipped and changes nothing.
pub proof fn law_metadata_is_read_by_keys(bytes: Seq<u8>, before: Seq<Lz4FrameMetadata>)
    requires
        bytes.len() > 0,
    ensures
        match read_varint(bytes) {
            None => parse_metadata(bytes, before) is None,
            Some((key, end)) => {
                let rest = bytes.skip(end);
                &&& key < 8 || key > 0xffff_ffff || key % 8 > 5 ==> parse_metadata(
                    bytes,
                    before,
                ) is None
                &&& (8 <= key <= 9 || 11 <= key <= 13) ==> parse_metadata(bytes, before) is None
                &&& key == 10 ==> match read_varint(rest) {
                    None => parse_metadata(bytes, before) is None,
                    Some((len, at)) => {
                        &&& at + len > rest.len() ==> parse_metadata(bytes, before) is None
                        &&& at + len <= rest.len() ==> parse_metadata(bytes, before)
                            == match parse_frame(
                            rest.subrange(at, at + len),
                            (Lz4FrameMetadata { uncompressed_size: 0, n_values: 0 }),
                            true,
                        ) {
                            None => None,
                            Some(meta) => parse_metadata(rest.skip(at + len), before.push(meta)),
                        }
                    },
                }
                &&& 16 <= key <= 0xffff_ffff && key % 8 <= 5 ==> (match after_field(
                    (key % 8) as u8,
                    (key / 8) as u32,
                    rest,
                ) {
                    None => parse_metadata(bytes, before) is None,
                    Some(behind) => behind.len() <= rest.len() ==> parse_metadata(bytes, before)
                        == parse_metadata(behind, before),
                })
            },
        },
{
    lemma_varint_end(bytes, 0);
    if let Some((key, end)) = read_varint(bytes) {
        lemma_varint_end(bytes.skip(end), 0);
    }
}

/// What is encoded of a frame's metadata is, for every two numbers, each number's plain varint behind
/// its key byte, and what is decoded from those bytes is the same two numbers.
pub proof fn law_frame_metadata_calls(
    meta: Lz4FrameMetadata,
    encoded: Vec<u8>,
    bytes: &[u8],
    decoded: Result<Lz4FrameMetadata, Lz4Error>,
)
    requires
        call_ensures(Lz4FrameMetadata::encode_to_vec, (&meta,), encoded),
        call_ensures(Lz4FrameMetadata::decode, (bytes,), decoded),
        bytes@ == seq![0x08u8] + varint_bytes(meta.uncompressed_size as nat) + seq![0x10u8]
            + varint_bytes(meta.n_values as nat),
    ensures
        meta.uncompressed_size != 0 && meta.n_values != 0 ==> encoded@ == bytes@,
        decoded == Ok::<Lz4FrameMetadata, Lz4Error>(meta),
{
    law_frame_on_wire(meta.uncompressed_size, meta.n_values);
    law_frame_is_read_from_wire(meta.uncompressed_size, meta.n_values, false);
}

/// What is encoded of the metadata of all frames is decoded to the metadata of those frames.
pub proof fn law_metadata_calls(
    metadata: Lz4Metadata,
    encoded: Vec<u8>,
    bytes: &[u8],
    decoded: Result<Lz4Metadata, Lz4Error>,
)
    requires
        call_ensures(Lz4Metadata::encode_to_vec, (&metadata,), encoded),
        bytes@ == encoded@,
        call_ensures(Lz4Metadata::decode, (bytes,), decoded),
    ensures
        decoded matches Ok(back) && back.frames@ == metadata.frames@,
{
    law_metadata_roundtrip(metadata.frames@);
}

} // verus!
