//! The postscript of a file: a flatbuffer that tells where the parts of the footer stand.
//!
//! Everything this crate believes of the `flatbuffers` crate without proof stands in this module.
//!
//! The flatbuffer is the root table
//!
//! ```text
//! table Postscript { dtype: PostscriptSegment; layout: PostscriptSegment;
//!                    statistics: PostscriptSegment; footer: PostscriptSegment; }
//! table PostscriptSegment { offset: uint64; length: uint32; }
//! ```

use crate::bytes::le_u32;
use crate::bytes::read_le_u32;
use flatbuffers::InvalidFlatbuffer;
use vstd::layout::align_of;
use vstd::prelude::*;

verus! {

/// The error of `flatbuffers`' verifier, carried through as an opaque value.
#[verifier::external_type_specification]
#[verifier::external_body]
pub struct ExInvalidFlatbuffer(InvalidFlatbuffer);

/// A byte range of a file.
#[derive(Clone, Copy, Debug, PartialEq, Eq, Structural)]
pub struct SegmentSpec {
    /// Byte offset in the file.
    pub offset: u64,
    /// Length in bytes.
    pub length: u32,
}

/// The byte ranges that a postscript tells of.
#[derive(Clone, Copy, Debug, PartialEq, Eq, Structural)]
pub struct PostscriptSegments {
    /// The file's logical type.
    pub dtype: Option<SegmentSpec>,
    /// The root of the layout.
    pub layout: Option<SegmentSpec>,
    /// The file's statistics.
    pub statistics: Option<SegmentSpec>,
    /// The footer.
    pub footer: Option<SegmentSpec>,
}

/// The number that the two bytes at `pos` spell, the lower byte first.
pub open spec fn u16_at(bytes: Seq<u8>, pos: int) -> int {
    bytes[pos] + 256 * bytes[pos + 1]
}

/// The number that the four bytes at `pos` spell, the lowest byte first.
pub open spec fn u32_at(bytes: Seq<u8>, pos: int) -> int {
    le_u32(bytes.skip(pos)) as int
}

/// The number that the eight bytes at `pos` spell, the lowest byte first.
pub open spec fn u64_at(bytes: Seq<u8>, pos: int) -> int {
    u32_at(bytes, pos) + 0x1_0000_0000 * u32_at(bytes, pos + 4)
}

/// Where the vtable of the table at `table` stands: as far before it as the signed number at its
/// start says.
pub open spec fn vtable_of(bytes: Seq<u8>, table: int) -> int {
    let offset = u32_at(bytes, table);
    if offset < 0x8000_0000 {
        table - offset
    } else {
        table + (0x1_0000_0000 - offset)
    }
}

/// Whether four bytes stand at `pos`, aligned as this machine aligns a `u32`.
pub open spec fn u32_readable(bytes: Seq<u8>, pos: int) -> bool {
    pos % (align_of::<u32>() as int) == 0 && pos + 4 <= bytes.len()
}

/// Whether eight bytes stand at `pos`, aligned as this machine aligns a `u64`.
pub open spec fn u64_readable(bytes: Seq<u8>, pos: int) -> bool {
    pos % (align_of::<u64>() as int) == 0 && pos + 8 <= bytes.len()
}

/// Whether two bytes stand at `pos`, aligned as this machine aligns a `u16`.
pub open spec fn u16_readable(bytes: Seq<u8>, pos: int) -> bool {
    pos % (align_of::<u16>() as int) == 0 && pos + 2 <= bytes.len()
}

/// Whether a table and its vtable lie within the bytes, and are aligned as this machine aligns what
/// they are made of.
pub open spec fn table_readable(bytes: Seq<u8>, table: int) -> bool {
    let vtable = vtable_of(bytes, table);
    let vtable_end = vtable + u16_at(bytes, vtable);
    &&& table % (align_of::<i32>() as int) == 0
    &&& table + 4 <= bytes.len()
    &&& 0 <= vtable
    &&& u16_readable(bytes, vtable)
    &&& vtable_end % (align_of::<u16>() as int) == 0
    &&& vtable_end <= bytes.len()
}

/// Whether a table can be read, and its vtable's slot `slot`, if the vtable has it.
pub open spec fn field_readable(bytes: Seq<u8>, table: int, slot: int) -> bool {
    let vtable = vtable_of(bytes, table);
    &&& table_readable(bytes, table)
    &&& slot < u16_at(bytes, vtable) ==> u16_readable(bytes, vtable + slot)
}

/// Where the field in the vtable's slot `slot` stands, if the table has it.
pub open spec fn field_of(bytes: Seq<u8>, table: int, slot: int) -> Option<int> {
    let vtable = vtable_of(bytes, table);
    if slot < u16_at(bytes, vtable) && u16_at(bytes, vtable + slot) > 0 {
        Some(table + u16_at(bytes, vtable + slot))
    } else {
        None
    }
}

/// `flatbuffers::Verifier::get_uoffset`, on a verifier of its own with the default limits: it reads
/// the four bytes at `pos`, lowest first, and fails exactly where they are not all there or not
/// aligned.
#[verifier::external_body]
pub(crate) fn get_uoffset(bytes: &[u8], pos: usize) -> (number: Result<u32, InvalidFlatbuffer>)
    ensures
        number is Ok <==> u32_readable(bytes@, pos as int),
        number matches Ok(n) ==> n == u32_at(bytes@, pos as int),
{
    let opts = flatbuffers::VerifierOptions::default();
    flatbuffers::Verifier::new(&opts, bytes).get_uoffset(pos)
}

/// `flatbuffers::Verifier::in_buffer` for a `u64`, on a verifier of its own with the default
/// limits: it fails exactly where the eight bytes at `pos` are not all there or not aligned.
#[verifier::external_body]
pub(crate) fn u64_in_buffer(bytes: &[u8], pos: usize) -> (checked: Result<(), InvalidFlatbuffer>)
    ensures
        checked is Ok <==> u64_readable(bytes@, pos as int),
{
    let opts = flatbuffers::VerifierOptions::default();
    flatbuffers::Verifier::new(&opts, bytes).in_buffer::<u64>(pos)
}

/// `flatbuffers::Verifier::visit_table` and `flatbuffers::TableVerifier::deref`, on a verifier of
/// their own with the default limits: they find the table's vtable and in it the field's place, and
/// fail exactly where one of them is not all there or not aligned.
#[verifier::external_body]
pub(crate) fn find_field(bytes: &[u8], table: usize, slot: u16) -> (field: Result<
    Option<usize>,
    InvalidFlatbuffer,
>)
    ensures
        field is Ok <==> field_readable(bytes@, table as int, slot as int),
        field matches Ok(place) ==> match place {
            Some(p) => field_of(bytes@, table as int, slot as int) == Some(p as int),
            None => field_of(bytes@, table as int, slot as int) is None,
        },
{
    let opts = flatbuffers::VerifierOptions::default();
    let mut verifier = flatbuffers::Verifier::new(&opts, bytes);
    let mut table = verifier.visit_table(table)?;
    table.deref(slot)
}

/// The table that the field at `pos` points to.
pub open spec fn target_of(bytes: Seq<u8>, pos: int) -> int {
    pos + u32_at(bytes, pos)
}

/// Whether the table of a range, and its fields, can be read.
pub open spec fn segment_readable(bytes: Seq<u8>, table: int) -> bool {
    &&& field_readable(bytes, table, 4)
    &&& field_of(bytes, table, 4) matches Some(p) ==> u64_readable(bytes, p)
    &&& field_readable(bytes, table, 6)
    &&& field_of(bytes, table, 6) matches Some(p) ==> u32_readable(bytes, p)
}

/// The range that a table tells of; a field that the table does not have is 0.
pub open spec fn segment_at(bytes: Seq<u8>, table: int) -> SegmentSpec {
    SegmentSpec {
        offset: match field_of(bytes, table, 4) {
            Some(p) => u64_at(bytes, p) as u64,
            None => 0,
        },
        length: match field_of(bytes, table, 6) {
            Some(p) => u32_at(bytes, p) as u32,
            None => 0,
        },
    }
}

/// Whether the root table can be read, and the range in its slot, if there is one.
pub open spec fn range_readable(bytes: Seq<u8>, root: int, slot: int) -> bool {
    &&& field_readable(bytes, root, slot)
    &&& field_of(bytes, root, slot) matches Some(p) ==> u32_readable(bytes, p) && segment_readable(
        bytes,
        target_of(bytes, p),
    )
}

/// The range in a slot of the root table, if there is one.
pub open spec fn range_at(bytes: Seq<u8>, root: int, slot: int) -> Option<SegmentSpec> {
    match field_of(bytes, root, slot) {
        Some(p) => Some(segment_at(bytes, target_of(bytes, p))),
        None => None,
    }
}

/// Whether all of a postscript can be read.
pub open spec fn postscript_readable(bytes: Seq<u8>) -> bool {
    let root = u32_at(bytes, 0);
    &&& u32_readable(bytes, 0)
    &&& range_readable(bytes, root, 4)
    &&& range_readable(bytes, root, 6)
    &&& range_readable(bytes, root, 8)
    &&& range_readable(bytes, root, 10)
}

/// The ranges that a postscript tells of.
pub open spec fn postscript_at(bytes: Seq<u8>) -> PostscriptSegments {
    let root = u32_at(bytes, 0);
    PostscriptSegments {
        dtype: range_at(bytes, root, 4),
        layout: range_at(bytes, root, 6),
        statistics: range_at(bytes, root, 8),
        footer: range_at(bytes, root, 10),
    }
}

/// The number that the eight bytes at `pos` spell, the lowest byte first.
fn read_le_u64(bytes: &[u8], pos: usize) -> (n: u64)
    requires
        pos + 8 <= bytes@.len(),
    ensures
        n == u64_at(bytes@, pos as int),
{
    assert(pos + 8 <= bytes.len());
    let low: u64 = read_le_u32(bytes, pos) as u64;
    let high: u64 = read_le_u32(bytes, pos + 4) as u64;
    low + 0x1_0000_0000 * high
}

/// The range that a table tells of.
fn read_segment(bytes: &[u8], table: usize) -> (segment: Option<SegmentSpec>)
    ensures
        segment is Some <==> segment_readable(bytes@, table as int),
        segment matches Some(s) ==> s == segment_at(bytes@, table as int),
{
    let offset: u64 = match find_field(bytes, table, 4) {
        Err(_) => {
            return None;
        },
        Ok(None) => 0,
        Ok(Some(pos)) => match u64_in_buffer(bytes, pos) {
            Err(_) => {
                return None;
            },
            Ok(_) => read_le_u64(bytes, pos),
        },
    };
    let length: u32 = match find_field(bytes, table, 6) {
        Err(_) => {
            return None;
        },
        Ok(None) => 0,
        Ok(Some(pos)) => match get_uoffset(bytes, pos) {
            Err(_) => {
                return None;
            },
            Ok(n) => n,
        },
    };
    Some(SegmentSpec { offset, length })
}

/// The range in a slot of the root table, if there is one, or `None` where it is broken.
fn read_range(bytes: &[u8], root: usize, slot: u16) -> (range: Option<Option<SegmentSpec>>)
    ensures
        range is Some <==> range_readable(bytes@, root as int, slot as int),
        range matches Some(r) ==> r == range_at(bytes@, root as int, slot as int),
{
    match find_field(bytes, root, slot) {
        Err(_) => None,
        Ok(None) => Some(None),
        Ok(Some(pos)) => match get_uoffset(bytes, pos) {
            Err(_) => None,
            Ok(offset) => {
                if offset as usize > usize::MAX - pos {
                    assert(target_of(bytes@, pos as int) > bytes.len());
                    return None;
                }
                match read_segment(bytes, pos + offset as usize) {
                    None => None,
                    Some(segment) => Some(Some(segment)),
                }
            },
        },
    }
}

/// Reads a postscript, or returns `None` where it is broken: some part of it does not lie within
/// the bytes, or is not aligned as this machine aligns it.
pub fn read_postscript(bytes: &[u8]) -> (postscript: Option<PostscriptSegments>)
    ensures
        postscript is Some <==> postscript_readable(bytes@),
        postscript matches Some(p) ==> p == postscript_at(bytes@),
{
    let root: usize = match get_uoffset(bytes, 0) {
        Err(_) => {
            return None;
        },
        Ok(offset) => offset as usize,
    };
    let dtype: Option<SegmentSpec> = match read_range(bytes, root, 4) {
        None => {
            return None;
        },
        Some(range) => range,
    };
    let layout: Option<SegmentSpec> = match read_range(bytes, root, 6) {
        None => {
            return None;
        },
        Some(range) => range,
    };
    let statistics: Option<SegmentSpec> = match read_range(bytes, root, 8) {
        None => {
            return None;
        },
        Some(range) => range,
    };
    let footer: Option<SegmentSpec> = match read_range(bytes, root, 10) {
        None => {
            return None;
        },
        Some(range) => range,
    };
    Some(PostscriptSegments { dtype, layout, statistics, footer })
}

/// The bytes of numbers stand lowest first, one behind the other.
pub proof fn law_numbers_at(bytes: Seq<u8>, pos: int)
    requires
        0 <= pos,
        pos + 8 <= bytes.len(),
    ensures
        u16_at(bytes, pos) == bytes[pos] + 0x100 * bytes[pos + 1],
        u32_at(bytes, pos) == bytes[pos] + 0x100 * bytes[pos + 1] + 0x1_0000 * bytes[pos + 2]
            + 0x100_0000 * bytes[pos + 3],
        u64_at(bytes, pos) == bytes[pos] + 0x100 * bytes[pos + 1] + 0x1_0000 * bytes[pos + 2]
            + 0x100_0000 * bytes[pos + 3] + 0x1_0000_0000 * bytes[pos + 4] + 0x100_0000_0000
            * bytes[pos + 5] + 0x1_0000_0000_0000 * bytes[pos + 6] + 0x100_0000_0000_0000
            * bytes[pos + 7],
{
}

/// Where the parts of a postscript stand: the number at its start points to the root table, whose
/// slots 4, 6, 8 and 10 are those of the dtype, the layout, the statistics and the footer. A slot
/// that is filled points to the table of a range.
pub proof fn law_postscript_slots(bytes: Seq<u8>)
    ensures
        ({
            let root = u32_at(bytes, 0);
            let told_of = postscript_at(bytes);
            &&& told_of.dtype == match field_of(bytes, root, 4) {
                Some(p) => Some(segment_at(bytes, p + u32_at(bytes, p))),
                None => None,
            }
            &&& told_of.layout == match field_of(bytes, root, 6) {
                Some(p) => Some(segment_at(bytes, p + u32_at(bytes, p))),
                None => None,
            }
            &&& told_of.statistics == match field_of(bytes, root, 8) {
                Some(p) => Some(segment_at(bytes, p + u32_at(bytes, p))),
                None => None,
            }
            &&& told_of.footer == match field_of(bytes, root, 10) {
                Some(p) => Some(segment_at(bytes, p + u32_at(bytes, p))),
                None => None,
            }
        }),
{
}

/// What the table of a range tells: its slot 4 holds the offset in eight bytes and its slot 6 the
/// length in four, each 0 where the slot is not filled. Every offset and every length is told as it
/// stands there.
pub proof fn law_range_slots(bytes: Seq<u8>, table: int)
    requires
        segment_readable(bytes, table),
    ensures
        field_of(bytes, table, 4) matches Some(p) ==> segment_at(bytes, table).offset == u64_at(
            bytes,
            p,
        ),
        field_of(bytes, table, 4) is None ==> segment_at(bytes, table).offset == 0,
        field_of(bytes, table, 6) matches Some(p) ==> segment_at(bytes, table).length == u32_at(
            bytes,
            p,
        ),
        field_of(bytes, table, 6) is None ==> segment_at(bytes, table).length == 0,
{
}

/// A table's vtable stands as far before the table as the signed number at the table's start says;
/// its first number is its own size, and a slot within it that is not 0 says how far behind the
/// table's start the field stands.
pub proof fn law_field_of(bytes: Seq<u8>, table: int, slot: int)
    ensures
        ({
            let back = u32_at(bytes, table);
            let signed = if back < 0x8000_0000 { back } else { back - 0x1_0000_0000 };
            let vtable = table - signed;
            let size = u16_at(bytes, vtable);
            let at = u16_at(bytes, vtable + slot);
            &&& slot < size && at != 0 ==> field_of(bytes, table, slot) == Some(table + at)
            &&& slot >= size || at == 0 ==> field_of(bytes, table, slot) is None
        }),
{
}

/// A postscript can be read where every number and every table on the way to its ranges lies within
/// the bytes and is aligned.
pub proof fn law_postscript_readable(bytes: Seq<u8>)
    ensures
        postscript_readable(bytes) <==> {
            let root = u32_at(bytes, 0);
            &&& u32_readable(bytes, 0)
            &&& forall|slot: int|
                #![trigger field_of(bytes, root, slot)]
                slot == 4 || slot == 6 || slot == 8 || slot == 10 ==> {
                    &&& field_readable(bytes, root, slot)
                    &&& field_of(bytes, root, slot) matches Some(p) ==> {
                        let table = p + u32_at(bytes, p);
                        &&& u32_readable(bytes, p)
                        &&& field_readable(bytes, table, 4)
                        &&& field_of(bytes, table, 4) matches Some(q) ==> u64_readable(bytes, q)
                        &&& field_readable(bytes, table, 6)
                        &&& field_of(bytes, table, 6) matches Some(q) ==> u32_readable(bytes, q)
                    }
                }
        },
{
    let root = u32_at(bytes, 0);
    assert(range_readable(bytes, root, 4) ==> field_readable(bytes, root, 4));
    assert(field_of(bytes, root, 4) == field_of(bytes, root, 4));
    assert(field_of(bytes, root, 6) == field_of(bytes, root, 6));
    assert(field_of(bytes, root, 8) == field_of(bytes, root, 8));
    assert(field_of(bytes, root, 10) == field_of(bytes, root, 10));
}

/// What is read of a postscript are the ranges in the slots of its root table.
pub proof fn law_read_postscript_calls(bytes: &[u8], read: Option<PostscriptSegments>)
    requires
        call_ensures(read_postscript, (bytes,), read),
    ensures
        read is Some <==> postscript_readable(bytes@),
        read matches Some(told_of) ==> {
            let root = u32_at(bytes@, 0);
            &&& told_of.dtype is Some <==> field_of(bytes@, root, 4) is Some
            &&& told_of.layout is Some <==> field_of(bytes@, root, 6) is Some
            &&& told_of.statistics is Some <==> field_of(bytes@, root, 8) is Some
            &&& told_of.footer is Some <==> field_of(bytes@, root, 10) is Some
            &&& field_of(bytes@, root, 4) matches Some(p) ==> told_of.dtype == Some(
                segment_at(bytes@, p + u32_at(bytes@, p)),
            )
            &&& field_of(bytes@, root, 6) matches Some(p) ==> told_of.layout == Some(
                segment_at(bytes@, p + u32_at(bytes@, p)),
            )
            &&& field_of(bytes@, root, 8) matches Some(p) ==> told_of.statistics == Some(
                segment_at(bytes@, p + u32_at(bytes@, p)),
            )
            &&& field_of(bytes@, root, 10) matches Some(p) ==> told_of.footer == Some(
                segment_at(bytes@, p + u32_at(bytes@, p)),
            )
        },
{
}

} // verus!
