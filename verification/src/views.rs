//! Binary views: fixed-size descriptions of byte strings that stand in shared buffers.

use crate::buffer::buffer_bytes;
use crate::buffer::ByteBuffer;
use crate::bytes::all_prefixed;
use crate::bytes::concat;
use crate::bytes::lemma_concat_one;
use crate::bytes::lemma_concat_push;
use crate::bytes::lemma_concat_range;
use crate::bytes::lemma_parse_values_exact;
use crate::bytes::lemma_value_in_stream;
use crate::bytes::lemma_value_start;
use crate::bytes::le_u32;
use crate::bytes::parse_values;
use crate::bytes::prefixed;
use crate::bytes::read_le_u32;
use crate::bytes::value_start;
use vstd::prelude::*;

verus! {

/// The longest value that a view holds itself.
pub const MAX_INLINED_SIZE: usize = 12;

/// The longest buffer into which views point: their offsets are kept within an `i32`.
pub const MAX_BUFFER_LEN: usize = 2147483647;

/// A byte string: a short one itself, a longer one by its place in one of an array's buffers.
#[derive(Clone, Copy, Debug, PartialEq, Eq)]
pub enum BinaryView {
    /// A value of at most [`MAX_INLINED_SIZE`] bytes, with zeros behind it.
    Inlined { size: u32, data: [u8; 12] },
    /// A longer value, with its first bytes.
    Ref { size: u32, prefix: [u8; 4], buffer_index: u32, offset: u32 },
}

/// The value of a [`BinaryView`].
pub enum BinaryViewModel {
    Inlined { size: nat, data: Seq<u8> },
    Ref { size: nat, prefix: Seq<u8>, buffer_index: nat, offset: nat },
}

impl View for BinaryView {
    type V = BinaryViewModel;

    open spec fn view(&self) -> BinaryViewModel {
        match self {
            BinaryView::Inlined { size, data } => BinaryViewModel::Inlined {
                size: *size as nat,
                data: data@,
            },
            BinaryView::Ref { size, prefix, buffer_index, offset } => BinaryViewModel::Ref {
                size: *size as nat,
                prefix: prefix@,
                buffer_index: *buffer_index as nat,
                offset: *offset as nat,
            },
        }
    }
}

/// The values of a row of views.
pub open spec fn view_models(views: Seq<BinaryView>) -> Seq<BinaryViewModel> {
    views.map_values(|v: BinaryView| v@)
}

impl BinaryViewModel {
    /// The view of `value`, where it stands at `offset` of the buffer `buffer_index`.
    pub open spec fn of_value(value: Seq<u8>, buffer_index: nat, offset: nat) -> BinaryViewModel {
        if value.len() <= 12 {
            BinaryViewModel::Inlined {
                size: value.len(),
                data: value + Seq::new((12 - value.len()) as nat, |i: int| 0u8),
            }
        } else {
            BinaryViewModel::Ref {
                size: value.len(),
                prefix: value.take(4),
                buffer_index,
                offset,
            }
        }
    }

    /// The view that stands for a row without a value: an empty value.
    pub open spec fn zeroed() -> BinaryViewModel {
        BinaryViewModel::Inlined { size: 0, data: Seq::new(12, |i: int| 0u8) }
    }

    /// Whether the view describes a value, where the array's buffers hold these bytes.
    pub open spec fn in_bounds(self, buffers: Seq<Seq<u8>>) -> bool {
        match self {
            BinaryViewModel::Inlined { size, data } => size <= data.len() <= 12,
            BinaryViewModel::Ref { size, prefix: _, buffer_index, offset } => {
                &&& buffer_index < buffers.len()
                &&& offset + size <= buffers[buffer_index as int].len()
            },
        }
    }

    /// The value that the view describes.
    pub open spec fn value(self, buffers: Seq<Seq<u8>>) -> Seq<u8> {
        match self {
            BinaryViewModel::Inlined { size, data } => data.take(size as int),
            BinaryViewModel::Ref { size, prefix: _, buffer_index, offset } =>
                buffers[buffer_index as int].subrange(offset as int, (offset + size) as int),
        }
    }
}

impl BinaryView {
    /// The view of `value`, where it stands at `offset` of the buffer `buffer_index`.
    pub fn make_view(value: &[u8], buffer_index: u32, offset: u32) -> (view: Self)
        requires
            value@.len() <= u32::MAX,
        ensures
            view@ == BinaryViewModel::of_value(value@, buffer_index as nat, offset as nat),
            match view {
                BinaryView::Inlined { size, data } => {
                    &&& value@.len() <= 12
                    &&& size == value@.len()
                    &&& forall|k: int| 0 <= k < value@.len() ==> #[trigger] data@[k] == value@[k]
                    &&& forall|k: int| value@.len() <= k < 12 ==> #[trigger] data@[k] == 0
                },
                BinaryView::Ref { size, prefix, buffer_index: index, offset: place } => {
                    &&& value@.len() > 12
                    &&& size == value@.len()
                    &&& forall|k: int| 0 <= k < 4 ==> #[trigger] prefix@[k] == value@[k]
                    &&& index == buffer_index
                    &&& place == offset
                },
            },
    {
        let size: u32 = value.len() as u32;
        if value.len() <= MAX_INLINED_SIZE {
            let mut data: [u8; 12] = [0;12];
            let mut i: usize = 0;
            while i < value.len()
                invariant
                    i <= value@.len() <= 12,
                    forall|k: int| 0 <= k < i ==> data@[k] == value@[k],
                    forall|k: int| i <= k < 12 ==> data@[k] == 0,
                decreases value@.len() - i,
            {
                data[i] = value[i];
                i += 1;
            }
            assert(data@ =~= value@ + Seq::new((12 - value@.len()) as nat, |k: int| 0u8));
            BinaryView::Inlined { size, data }
        } else {
            let prefix: [u8; 4] = [value[0], value[1], value[2], value[3]];
            assert(prefix@ =~= value@.take(4));
            BinaryView::Ref { size, prefix, buffer_index, offset }
        }
    }

    /// The view that stands for a row without a value.
    pub fn zeroed() -> (view: Self)
        ensures
            view@ == BinaryViewModel::zeroed(),
            view matches BinaryView::Inlined { size, data } && size == 0 && data@ =~= Seq::new(
                12,
                |i: int| 0u8,
            ),
    {
        let data: [u8; 12] = [0;12];
        assert(data@ =~= Seq::new(12, |i: int| 0u8));
        BinaryView::Inlined { size: 0, data }
    }

    /// The value that the view describes.
    pub fn value<'a>(&'a self, buffers: &'a Vec<ByteBuffer>) -> (value: &'a [u8])
        requires
            self@.in_bounds(buffer_bytes(buffers@)),
        ensures
            value@ == self@.value(buffer_bytes(buffers@)),
            match *self {
                BinaryView::Inlined { size, data } => value@ == data@.take(size as int),
                BinaryView::Ref { size, prefix: _, buffer_index, offset } => value@
                    == buffers@[buffer_index as int]@.subrange(
                    offset as int,
                    offset as int + size as int,
                ),
            },
    {
        match self {
            BinaryView::Inlined { size, data } => {
                let value: &[u8] = &data[0..*size as usize];
                assert(value@ =~= data@.take(*size as int));
                value
            },
            BinaryView::Ref { size, prefix: _, buffer_index, offset } => {
                let buffer: &ByteBuffer = &buffers[*buffer_index as usize];
                assert(buffer_bytes(buffers@)[*buffer_index as int] == buffer@);
                let bytes: &[u8] = buffer.as_slice();
                let start: usize = *offset as usize;
                assert(start + *size <= bytes.len());
                &bytes[start..start + *size as usize]
            },
        }
    }
}

/// Where the segment begins into which the `i`th value of a stream falls, when a value that would
/// end more than `max` bytes behind the start of its segment begins a segment of its own.
pub open spec fn segment_start(values: Seq<Seq<u8>>, max: nat, i: int) -> int
    decreases i,
{
    if i <= 0 {
        0
    } else {
        let start = segment_start(values, max, i - 1);
        if value_start(values, i) + 4 + values[i].len() - start > max {
            value_start(values, i)
        } else {
            start
        }
    }
}

/// Whether the `i`th value begins a segment, and is not the first of all.
pub open spec fn begins_segment(values: Seq<Seq<u8>>, max: nat, i: int) -> bool {
    i > 0 && value_start(values, i) + 4 + values[i].len() - segment_start(values, max, i - 1) > max
}

/// The number of segments before the one into which the `i`th value falls.
pub open spec fn segment_index(values: Seq<Seq<u8>>, max: nat, i: int) -> nat
    decreases i,
{
    if i <= 0 {
        0
    } else {
        segment_index(values, max, i - 1) + if begins_segment(values, max, i) {
            1nat
        } else {
            0nat
        }
    }
}

/// The segments that end before the one into which the `i`th value falls.
pub open spec fn closed_segments(
    stream: Seq<u8>,
    values: Seq<Seq<u8>>,
    max: nat,
    i: int,
) -> Seq<Seq<u8>>
    decreases i,
{
    if i <= 0 {
        Seq::empty()
    } else if begins_segment(values, max, i) {
        closed_segments(stream, values, max, i - 1).push(
            stream.subrange(segment_start(values, max, i - 1), value_start(values, i)),
        )
    } else {
        closed_segments(stream, values, max, i - 1)
    }
}

/// The segments of a stream with these values.
pub open spec fn segments(stream: Seq<u8>, values: Seq<Seq<u8>>, max: nat) -> Seq<Seq<u8>> {
    let last = values.len() - 1;
    if values.len() == 0 {
        Seq::empty()
    } else {
        closed_segments(stream, values, max, last).push(
            stream.skip(segment_start(values, max, last)),
        )
    }
}

/// Where the `i`th value stands in its segment.
pub open spec fn segment_offset(values: Seq<Seq<u8>>, max: nat, i: int) -> int {
    value_start(values, i) + 4 - segment_start(values, max, i)
}

/// The views of a stream with these values.
pub open spec fn stream_views(values: Seq<Seq<u8>>, max: nat) -> Seq<BinaryViewModel> {
    Seq::new(
        values.len(),
        |i: int|
            BinaryViewModel::of_value(
                values[i],
                segment_index(values, max, i),
                segment_offset(values, max, i) as nat,
            ),
    )
}

/// Whether every value's place can be written in a view.
pub open spec fn places_fit(values: Seq<Seq<u8>>, max: nat) -> bool {
    forall|i: int|
        0 <= i < values.len() ==> {
            &&& #[trigger] segment_offset(values, max, i) <= u32::MAX
            &&& segment_index(values, max, i) <= u32::MAX
        }
}

/// Whether a stream parses and every value's place in it can be written in a view.
pub open spec fn viewable(stream: Seq<u8>, max: nat) -> bool {
    parse_values(stream) matches Some(values) && places_fit(values, max)
}

/// Reconstructs the views of a length-prefixed stream, as [`reconstruct_views`] does, or returns
/// `None` where the stream ends within a value or a value's place does not fit into a view.
#[verifier::spinoff_prover]
pub fn checked_reconstruct_views(buffer: &ByteBuffer, max_buffer_len: usize) -> (parts: Option<
    (Vec<ByteBuffer>, Vec<BinaryView>),
>)
    ensures
        parts is Some <==> viewable(buffer@, max_buffer_len as nat),
        parts matches Some((buffers, views)) ==> {
            let values = parse_values(buffer@)->0;
            &&& buffer_bytes(buffers@) == segments(buffer@, values, max_buffer_len as nat)
            &&& view_models(views@) == stream_views(values, max_buffer_len as nat)
        },
{
    let bytes: &[u8] = buffer.as_slice();
    let len: usize = bytes.len();
    let mut views: Vec<BinaryView> = Vec::new();
    let mut buffers: Vec<ByteBuffer> = Vec::new();
    let mut segment_begin: usize = 0;
    let mut offset: usize = 0;
    let ghost max = max_buffer_len as nat;
    let ghost stream = buffer@;
    let ghost parsed = parse_values(stream);
    let ghost values = parsed->0;
    proof {
        assert(stream.skip(0) =~= stream);
        if parsed is Some {
            assert(values.skip(0) =~= values);
        }
    }
    while offset < len
        invariant
            bytes@ == stream,
            stream == buffer@,
            len == stream.len(),
            max == max_buffer_len,
            parsed == parse_values(stream),
            values == parsed->0,
            segment_begin <= offset <= len,
            views@.len() == 0 ==> offset == 0,
            views@.len() > 0 ==> segment_begin < offset,
            parsed is None ==> parse_values(stream.skip(offset as int)) is None,
            parsed is Some ==> {
                let k = views@.len() as int;
                &&& k <= values.len()
                &&& offset == value_start(values, k)
                &&& parse_values(stream.skip(offset as int)) == Some(values.skip(k))
                &&& view_models(views@) == stream_views(values, max).take(k)
                &&& segment_begin == segment_start(values, max, k - 1)
                &&& buffer_bytes(buffers@) == closed_segments(stream, values, max, k - 1)
                &&& buffers@.len() == segment_index(values, max, k - 1)
                &&& forall|i: int|
                    0 <= i < k ==> {
                        &&& #[trigger] segment_offset(values, max, i) <= u32::MAX
                        &&& segment_index(values, max, i) <= u32::MAX
                    }
            },
        decreases len - offset,
    {
        let ghost rest = stream.skip(offset as int);
        let ghost k = views@.len() as int;
        if len - offset < 4 {
            return None;
        }
        let str_len: usize = read_le_u32(bytes, offset) as usize;
        let value_data_offset: usize = offset + 4;
        if str_len > len - value_data_offset {
            return None;
        }
        let value_end: usize = value_data_offset + str_len;
        proof {
            assert(rest.skip(4 + le_u32(rest) as int) =~= stream.skip(value_end as int));
            assert(rest.subrange(4, 4 + le_u32(rest) as int) =~= stream.subrange(
                value_data_offset as int,
                value_end as int,
            ));
            if parsed is Some {
                let tail = parse_values(stream.skip(value_end as int));
                let value = stream.subrange(value_data_offset as int, value_end as int);
                assert(parse_values(rest) == Some(seq![value] + tail->0));
                assert((seq![value] + tail->0)[0] == value);
                assert(values.skip(k).len() >= 1);
                assert(values.skip(k)[0] == values[k]);
                assert(values.skip(k).skip(1) =~= values.skip(k + 1));
                assert((seq![value] + tail->0).skip(1) =~= tail->0);
                assert(tail == Some(values.skip(k + 1)));
            }
        }
        if value_end - segment_begin > max_buffer_len && offset > segment_begin {
            let ghost before = buffers@;
            buffers.push(buffer.slice(segment_begin, offset));
            proof {
                assert(buffer_bytes(buffers@) =~= buffer_bytes(before).push(
                    stream.subrange(segment_begin as int, offset as int),
                ));
                if parsed is Some {
                    assert(begins_segment(values, max, k));
                }
            }
            segment_begin = offset;
        }
        let local_offset: usize = value_data_offset - segment_begin;
        proof {
            if parsed is Some {
                assert(segment_begin == segment_start(values, max, k));
                assert(local_offset == segment_offset(values, max, k));
                assert(buffers@.len() == segment_index(values, max, k));
            }
        }
        if local_offset > 0xffff_ffff || buffers.len() > 0xffff_ffff {
            return None;
        }
        let value: &[u8] = &bytes[value_data_offset..value_end];
        let ghost before = views@;
        views.push(BinaryView::make_view(value, buffers.len() as u32, local_offset as u32));
        proof {
            assert(view_models(views@) =~= view_models(before).push(views@.last()@));
            if parsed is Some {
                assert(view_models(views@) =~= stream_views(values, max).take(k + 1));
            }
        }
        offset = value_end;
        proof {
            if parsed is Some {
                assert(offset == value_start(values, k + 1));
                assert(views@.len() - 1 == k);
                assert(buffer_bytes(buffers@) == closed_segments(stream, values, max, k));
                assert(parse_values(stream.skip(offset as int)) == Some(values.skip(k + 1)));
            }
        }
    }
    proof {
        assert(stream.skip(offset as int) =~= Seq::<u8>::empty());
        let k = views@.len() as int;
        assert(values.skip(k).len() == 0);
        assert(view_models(views@) =~= stream_views(values, max));
    }
    if segment_begin < len {
        let ghost before = buffers@;
        buffers.push(buffer.slice(segment_begin, len));
        assert(buffer_bytes(buffers@) =~= buffer_bytes(before).push(
            stream.skip(segment_begin as int),
        ));
    }
    Some((buffers, views))
}

/// Reconstructs the views of a length-prefixed stream.
///
/// The buffer holds, one behind the other, the length of each value as a little-endian `u32` and
/// the value. Where the values of a segment would reach more than `max_buffer_len` bytes behind
/// its start, the buffer is split, without a copy, so that a view's offset addresses every value.
///
/// Pass [`MAX_BUFFER_LEN`] for `max_buffer_len`; a smaller one splits sooner.
pub fn reconstruct_views(buffer: &ByteBuffer, max_buffer_len: usize) -> (parts: (
    Vec<ByteBuffer>,
    Vec<BinaryView>,
))
    requires
        viewable(buffer@, max_buffer_len as nat),
    ensures
        buffer_bytes(parts.0@) == segments(
            buffer@,
            parse_values(buffer@)->0,
            max_buffer_len as nat,
        ),
        view_models(parts.1@) == stream_views(parse_values(buffer@)->0, max_buffer_len as nat),
{
    checked_reconstruct_views(buffer, max_buffer_len).unwrap()
}

/// Later values stand further behind, and a segment begins no later than its values.
proof fn lemma_starts(values: Seq<Seq<u8>>, max: nat, i: int, j: int)
    requires
        0 <= i <= j,
    ensures
        value_start(values, i) <= value_start(values, j),
        0 <= segment_start(values, max, j) <= value_start(values, j),
    decreases j,
{
    if j > 0 {
        if i < j {
            lemma_starts(values, max, i, j - 1);
        } else {
            lemma_starts(values, max, j - 1, j - 1);
        }
    }
}

/// The segment into which the `i`th value falls, seen from a later value `j`: it is still open, or
/// it is closed and holds the `i`th value where it stood.
proof fn lemma_segment_of(stream: Seq<u8>, values: Seq<Seq<u8>>, max: nat, i: int, j: int)
    requires
        0 <= i <= j < values.len(),
        value_start(values, values.len() as int) <= stream.len(),
    ensures
        closed_segments(stream, values, max, j).len() == segment_index(values, max, j),
        segment_index(values, max, i) <= segment_index(values, max, j),
        segment_index(values, max, i) == segment_index(values, max, j) ==> segment_start(
            values,
            max,
            i,
        ) == segment_start(values, max, j),
        segment_index(values, max, i) < segment_index(values, max, j) ==> {
            let segment = closed_segments(stream, values, max, j)[segment_index(
                values,
                max,
                i,
            ) as int];
            let size = value_start(values, i + 1) - segment_start(values, max, i);
            &&& size <= segment.len()
            &&& segment.take(size) == stream.subrange(
                segment_start(values, max, i),
                value_start(values, i + 1),
            )
        },
    decreases j,
{
    lemma_starts(values, max, j, values.len() as int);
    if i < j {
        lemma_segment_of(stream, values, max, i, j - 1);
        lemma_starts(values, max, i + 1, j);
        lemma_starts(values, max, i, i);
        lemma_starts(values, max, j - 1, j - 1);
        if begins_segment(values, max, j) && segment_index(values, max, i) == segment_index(
            values,
            max,
            j - 1,
        ) {
            let segment = stream.subrange(
                segment_start(values, max, j - 1),
                value_start(values, j),
            );
            let size = value_start(values, i + 1) - segment_start(values, max, i);
            assert(segment.take(size) =~= stream.subrange(
                segment_start(values, max, i),
                value_start(values, i + 1),
            ));
        }
    } else if j > 0 {
        lemma_segment_of(stream, values, max, j - 1, j - 1);
    }
}

/// Every reconstructed view lies within the reconstructed buffers and describes the value of the
/// stream that it was made for.
pub proof fn law_views_resolve(stream: Seq<u8>, max: nat, i: int)
    requires
        parse_values(stream) is Some,
        0 <= i < parse_values(stream)->0.len(),
    ensures
        ({
            let values = parse_values(stream)->0;
            let view = stream_views(values, max)[i];
            &&& view.in_bounds(segments(stream, values, max))
            &&& view.value(segments(stream, values, max)) == values[i]
        }),
{
    let values = parse_values(stream)->0;
    let last = values.len() - 1;
    let all = segments(stream, values, max);
    lemma_parse_values_exact(stream);
    lemma_value_start(values, values.len() as int);
    assert(all_prefixed(values).take(values.len() as int) =~= all_prefixed(values));
    lemma_value_in_stream(values, i);
    lemma_starts(values, max, i, i);
    lemma_starts(values, max, i + 1, values.len() as int);
    lemma_segment_of(stream, values, max, i, last);
    let view = stream_views(values, max)[i];
    let value = values[i];
    if value.len() <= 12 {
        assert(view.value(all) =~= value);
    } else {
        let segment = all[segment_index(values, max, i) as int];
        let offset = segment_offset(values, max, i);
        let size = value_start(values, i + 1) - segment_start(values, max, i);
        assert(segment.take(size) =~= stream.subrange(
            segment_start(values, max, i),
            value_start(values, i + 1),
        ));
        assert(segment.subrange(offset, offset + value.len()) =~= segment.take(size).subrange(
            offset,
            size,
        ));
        assert(segment.take(size).subrange(offset, size) =~= stream.subrange(
            value_start(values, i) + 4,
            value_start(values, i + 1),
        ));
    }
}

/// Splitting a stream into segments loses nothing and moves nothing: one behind the other they
/// are the stream.
pub proof fn law_segments_cover_stream(stream: Seq<u8>, max: nat)
    requires
        parse_values(stream) is Some,
    ensures
        concat(segments(stream, parse_values(stream)->0, max)) == stream,
{
    let values = parse_values(stream)->0;
    let last = values.len() - 1;
    if values.len() == 0 {
        assert(stream =~= Seq::<u8>::empty());
    } else {
        lemma_parse_values_exact(stream);
        lemma_value_start(values, values.len() as int);
        assert(all_prefixed(values).take(values.len() as int) =~= all_prefixed(values));
        lemma_starts(values, max, last, values.len() as int);
        lemma_closed_segments_cover(stream, values, max, last);
        lemma_concat_push(
            closed_segments(stream, values, max, last),
            stream.skip(segment_start(values, max, last)),
        );
        lemma_starts(values, max, last, last);
        assert(stream.take(segment_start(values, max, last)) + stream.skip(
            segment_start(values, max, last),
        ) =~= stream);
    }
}

proof fn lemma_closed_segments_cover(stream: Seq<u8>, values: Seq<Seq<u8>>, max: nat, i: int)
    requires
        0 <= i < values.len(),
        value_start(values, values.len() as int) <= stream.len(),
    ensures
        concat(closed_segments(stream, values, max, i)) == stream.take(
            segment_start(values, max, i),
        ),
    decreases i,
{
    if i > 0 {
        lemma_closed_segments_cover(stream, values, max, i - 1);
        if begins_segment(values, max, i) {
            lemma_starts(values, max, i, values.len() as int);
            lemma_starts(values, max, i - 1, i);
            lemma_starts(values, max, i - 1, i - 1);
            let segment = stream.subrange(
                segment_start(values, max, i - 1),
                value_start(values, i),
            );
            lemma_concat_push(closed_segments(stream, values, max, i - 1), segment);
            assert(stream.take(segment_start(values, max, i - 1)) + segment =~= stream.take(
                value_start(values, i),
            ));
        }
    } else {
        assert(stream.take(0) =~= Seq::<u8>::empty());
    }
}

/// A value ends within `max` bytes of the start of its segment, or it is the first of its segment
/// and stands right behind its length: so a view's offset addresses every value that is no longer
/// than the limit leaves room for.
pub proof fn law_values_end_within_limit(values: Seq<Seq<u8>>, max: nat, i: int)
    requires
        0 <= i < values.len(),
    ensures
        segment_offset(values, max, i) + values[i].len() <= max || segment_offset(values, max, i)
            == 4,
{
}

/// The place of every value fits into a view as long as the limit does and the stream is not
/// longer than half of what the numbered segments could hold.
pub proof fn law_places_fit(values: Seq<Seq<u8>>, max: nat)
    requires
        max <= u32::MAX,
        2 * value_start(values, values.len() as int) <= (max + 1) * u32::MAX,
    ensures
        places_fit(values, max),
{
    assert forall|i: int| 0 <= i < values.len() implies {
        &&& #[trigger] segment_offset(values, max, i) <= u32::MAX
        &&& segment_index(values, max, i) <= u32::MAX
    } by {
        law_values_end_within_limit(values, max, i);
        lemma_segment_index_bound(values, max, i);
        lemma_starts(values, max, i, i + 1);
        lemma_starts(values, max, i, i);
        lemma_starts(values, max, i + 1, values.len() as int);
        let index = segment_index(values, max, i) as int;
        let limit = max + 1;
        assert(index <= u32::MAX) by (nonlinear_arith)
            requires
                index * limit <= limit * u32::MAX,
                limit > 0,
        ;
    }
}

/// Two segments in a row are longer than the limit.
proof fn lemma_segment_index_bound(values: Seq<Seq<u8>>, max: nat, i: int)
    requires
        0 <= i < values.len(),
    ensures
        segment_index(values, max, i) * (max + 1) <= segment_start(values, max, i) + value_start(
            values,
            i + 1,
        ),
    decreases i,
{
    if i > 0 {
        lemma_segment_index_bound(values, max, i - 1);
        let index = segment_index(values, max, i - 1);
        assert((index + 1) * (max + 1) == index * (max + 1) + (max + 1)) by (nonlinear_arith);
        assert(value_start(values, i + 1) == value_start(values, i) + 4 + values[i].len());
        assert(value_start(values, i) == value_start(values, i - 1) + 4 + values[i - 1].len());
    } else {
        assert(value_start(values, 1) == value_start(values, 0) + 4 + values[0].len());
        assert(0 * (max + 1) == 0) by (nonlinear_arith);
    }
}

/// Where the values of a run stand, counted from the start of the run.
proof fn lemma_run_start(values: Seq<Seq<u8>>, from: int, to: int, k: int)
    requires
        0 <= from <= to <= values.len(),
        0 <= k <= to - from,
    ensures
        value_start(values.subrange(from, to), k) == value_start(values, from + k) - value_start(
            values,
            from,
        ),
    decreases k,
{
    if k > 0 {
        lemma_run_start(values, from, to, k - 1);
        assert(values.subrange(from, to)[k - 1] == values[from + k - 1]);
    }
}

/// A run of values that is segmented on its own does not get ahead of the run as a part of the
/// whole: it has begun no more segments, and where it has begun as many, its segment begins no
/// earlier.
proof fn lemma_run_segments(values: Seq<Seq<u8>>, max: nat, from: int, to: int, k: int)
    requires
        0 <= from <= to <= values.len(),
        0 <= k < to - from,
    ensures
        ({
            let run = values.subrange(from, to);
            let ahead = segment_index(values, max, from + k) - segment_index(values, max, from);
            &&& segment_index(run, max, k) <= ahead
            &&& segment_index(run, max, k) == ahead ==> segment_start(values, max, from + k)
                <= segment_start(run, max, k) + value_start(values, from)
        }),
    decreases k,
{
    let run = values.subrange(from, to);
    lemma_starts(values, max, from + k, from + k);
    lemma_run_start(values, from, to, k);
    assert(run[k] == values[from + k]);
    if k > 0 {
        lemma_run_segments(values, max, from, to, k - 1);
    }
}

/// Where the places of values fit into views, those of a run of the values do.
pub proof fn lemma_places_fit_run(values: Seq<Seq<u8>>, max: nat, from: int, to: int)
    requires
        0 <= from <= to <= values.len(),
        max <= u32::MAX,
        places_fit(values, max),
    ensures
        places_fit(values.subrange(from, to), max),
{
    let run = values.subrange(from, to);
    assert forall|k: int| 0 <= k < run.len() implies {
        &&& #[trigger] segment_offset(run, max, k) <= u32::MAX
        &&& segment_index(run, max, k) <= u32::MAX
    } by {
        law_values_end_within_limit(run, max, k);
        lemma_run_segments(values, max, from, to, k);
        assert(segment_offset(values, max, from + k) <= u32::MAX);
    }
}

/// A view holds a value of up to twelve bytes itself, with zeros behind it; of a longer one it holds
/// the first four bytes and the place. Either way it holds the value's length.
pub proof fn law_view_of_value(value: Seq<u8>, buffer_index: nat, offset: nat)
    ensures
        MAX_INLINED_SIZE == 12,
        MAX_BUFFER_LEN == i32::MAX,
        match BinaryViewModel::of_value(value, buffer_index, offset) {
            BinaryViewModel::Inlined { size, data } => {
                &&& value.len() <= 12
                &&& size == value.len()
                &&& data.len() == 12
                &&& forall|k: int| 0 <= k < value.len() ==> #[trigger] data[k] == value[k]
                &&& forall|k: int| value.len() <= k < 12 ==> #[trigger] data[k] == 0
            },
            BinaryViewModel::Ref { size, prefix, buffer_index: index, offset: place } => {
                &&& value.len() > 12
                &&& size == value.len()
                &&& prefix.len() == 4
                &&& forall|k: int| 0 <= k < 4 ==> #[trigger] prefix[k] == value[k]
                &&& index == buffer_index
                &&& place == offset
            },
        },
{
}

/// A view describes a value where it holds at most twelve bytes and its size is no more than it
/// holds, or where there is a buffer of its number and its value ends within it.
pub proof fn law_view_in_bounds(view: BinaryViewModel, buffers: Seq<Seq<u8>>)
    ensures
        match view {
            BinaryViewModel::Inlined { size, data } => view.in_bounds(buffers) <==> size
                <= data.len() && data.len() <= 12,
            BinaryViewModel::Ref { size, prefix: _, buffer_index, offset } => view.in_bounds(
                buffers,
            ) <==> buffer_index < buffers.len() && offset + size
                <= buffers[buffer_index as int].len(),
        },
        view.in_bounds(buffers) ==> match view {
            BinaryViewModel::Inlined { size, data: _ } => view.value(buffers).len() == size,
            BinaryViewModel::Ref { size, prefix: _, buffer_index: _, offset: _ } => view.value(
                buffers,
            ).len() == size,
        },
{
}

/// Where the values of a stream go: the first value stands behind its length in the first segment.
/// Each further value stands behind its length where the value before it ends, in the same segment,
/// if it ends there within `max` bytes; else it stands behind its length in the next segment.
pub proof fn law_value_places(values: Seq<Seq<u8>>, max: nat, i: int)
    requires
        0 < i < values.len(),
    ensures
        segment_index(values, max, 0) == 0,
        segment_offset(values, max, 0) == 4,
        ({
            let place = segment_offset(values, max, i - 1) + values[i - 1].len() + 4;
            &&& place + values[i].len() <= max ==> {
                &&& segment_index(values, max, i) == segment_index(values, max, i - 1)
                &&& segment_offset(values, max, i) == place
            }
            &&& place + values[i].len() > max ==> {
                &&& segment_index(values, max, i) == segment_index(values, max, i - 1) + 1
                &&& segment_offset(values, max, i) == 4
            }
        }),
{
    assert(value_start(values, i) == value_start(values, i - 1) + 4 + values[i - 1].len());
    assert(value_start(values, 0) == 0);
    assert(segment_start(values, max, 0) == 0);
}

/// A value and its length stand in the segment of its number, at its offset; there are as many
/// segments as the last value's number says, and none for an empty stream. The view of a long value
/// names that segment and that offset.
pub proof fn law_segment_holds_value(stream: Seq<u8>, max: nat, i: int)
    requires
        parse_values(stream) is Some,
        0 <= i < parse_values(stream)->0.len(),
    ensures
        ({
            let values = parse_values(stream)->0;
            let all = segments(stream, values, max);
            let index = segment_index(values, max, i) as int;
            let offset = segment_offset(values, max, i);
            &&& all.len() == segment_index(values, max, values.len() - 1) + 1
            &&& index < all.len()
            &&& 4 <= offset
            &&& offset + values[i].len() <= all[index].len()
            &&& all[index].subrange(offset - 4, offset + values[i].len()) == prefixed(values[i])
            &&& stream_views(values, max).len() == values.len()
            &&& stream_views(values, max)[i] matches BinaryViewModel::Ref {
                size,
                prefix: _,
                buffer_index,
                offset: place,
            } ==> size == values[i].len() && buffer_index == index && place == offset
        }),
{
    let values = parse_values(stream)->0;
    let last = values.len() - 1;
    let all = segments(stream, values, max);
    lemma_parse_values_exact(stream);
    lemma_value_start(values, values.len() as int);
    assert(all_prefixed(values).take(values.len() as int) =~= all_prefixed(values));
    lemma_value_in_stream(values, i);
    lemma_starts(values, max, i, i);
    lemma_starts(values, max, i + 1, values.len() as int);
    lemma_segment_of(stream, values, max, i, last);
    let segment = all[segment_index(values, max, i) as int];
    let offset = segment_offset(values, max, i);
    let size = value_start(values, i + 1) - segment_start(values, max, i);
    assert(segment.take(size) =~= stream.subrange(
        segment_start(values, max, i),
        value_start(values, i + 1),
    ));
    assert(segment.subrange(offset - 4, offset + values[i].len()) =~= segment.take(size).subrange(
        offset - 4,
        size,
    ));
    assert(segment.take(size).subrange(offset - 4, size) =~= stream.subrange(
        value_start(values, i),
        value_start(values, i + 1),
    ));
    lemma_value_start(values, i);
    lemma_value_start(values, i + 1);
    lemma_concat_range(all_prefixed(values), i, i + 1);
    assert(all_prefixed(values).subrange(i, i + 1) =~= seq![prefixed(values[i])]);
    lemma_concat_one(prefixed(values[i]));
}

/// A stream has views exactly where it parses and the number of every value's segment and the
/// value's offset there fit 32 bits.
pub proof fn law_viewable(stream: Seq<u8>, max: nat)
    ensures
        viewable(stream, max) <==> (parse_values(stream) matches Some(values) && forall|i: int|
            0 <= i < values.len() ==> #[trigger] segment_offset(values, max, i) <= 0xffff_ffff
                && segment_index(values, max, i) <= 0xffff_ffff),
{
}

/// The values of views, one for each view.
pub proof fn law_view_models(views: Seq<BinaryView>, i: int)
    requires
        0 <= i < views.len(),
    ensures
        view_models(views).len() == views.len(),
        view_models(views)[i] == views[i]@,
        views[i] matches BinaryView::Inlined { size, data } ==> views[i]@
            == (BinaryViewModel::Inlined { size: size as nat, data: data@ }),
        views[i] matches BinaryView::Ref { size, prefix, buffer_index, offset } ==> views[i]@
            == (BinaryViewModel::Ref {
            size: size as nat,
            prefix: prefix@,
            buffer_index: buffer_index as nat,
            offset: offset as nat,
        }),
{
}

/// Reconstructing views gives one view for each value of the stream, which describes that value, and
/// buffers that are, one behind the other, the stream.
pub proof fn law_reconstruct_calls(
    buffer: ByteBuffer,
    max_buffer_len: usize,
    parts: (Vec<ByteBuffer>, Vec<BinaryView>),
    i: int,
)
    requires
        viewable(buffer@, max_buffer_len as nat),
        call_ensures(reconstruct_views, (&buffer, max_buffer_len), parts),
    ensures
        concat(buffer_bytes(parts.0@)) == buffer@,
        parse_values(buffer@) matches Some(values) && {
            &&& parts.1@.len() == values.len()
            &&& 0 <= i < values.len() ==> match parts.1@[i] {
                BinaryView::Inlined { size, data } => {
                    &&& values[i].len() <= 12
                    &&& size == values[i].len()
                    &&& data@.take(size as int) == values[i]
                },
                BinaryView::Ref { size, prefix, buffer_index, offset } => {
                    &&& values[i].len() > 12
                    &&& size == values[i].len()
                    &&& prefix@ == values[i].take(4)
                    &&& buffer_index < parts.0@.len()
                    &&& offset + size <= parts.0@[buffer_index as int]@.len()
                    &&& parts.0@[buffer_index as int]@.subrange(
                        offset as int,
                        offset as int + size as int,
                    ) == values[i]
                },
            }
        },
{
    let max = max_buffer_len as nat;
    let values = parse_values(buffer@)->0;
    law_segments_cover_stream(buffer@, max);
    assert(view_models(parts.1@).len() == parts.1@.len());
    if 0 <= i < values.len() {
        law_views_resolve(buffer@, max, i);
        assert(view_models(parts.1@)[i] == parts.1@[i]@);
        assert(buffer_bytes(parts.0@).len() == parts.0@.len());
    }
}

} // verus!
