//! What is read back of what was written.

use crate::array::Lz4;
use crate::array::Lz4Array;
use crate::arrays::Decompressed;
use crate::arrays::PrimitiveArray;
use crate::arrays::VarBinViewArray;
use crate::buffer::buffer_bytes;
use crate::buffer::ByteBuffer;
use crate::bytes::all_prefixed;
use crate::bytes::concat;
use crate::bytes::law_stream_roundtrip;
use crate::bytes::lemma_concat_add;
use crate::bytes::lemma_concat_range;
use crate::bytes::lemma_value_start;
use crate::bytes::parse_values;
use crate::bytes::value_start;
use crate::codec::compressible_len;
use crate::codec::decodable;
use crate::data::primitive_encodable;
use crate::data::value_width;
use crate::data::var_bin_encodable;
use crate::data::Lz4Data;
use crate::decompress::validity_agrees;
use crate::decompress::VarBinDecompressed;
use crate::dtype::DType;
use crate::error::Lz4Error;
use crate::frames::frame_capacity;
use crate::frames::frame_count;
use crate::frames::frame_end;
use crate::frames::frame_holds;
use crate::frames::frame_parts;
use crate::frames::frames_hold;
use crate::frames::lemma_frame_capacity;
use crate::frames::lemma_frame_count;
use crate::metadata::law_metadata_roundtrip;
use crate::metadata::metadata_message;
use crate::metadata::parse_metadata;
use crate::metadata::Lz4FrameMetadata;
use crate::plan::decode_frames;
use crate::plan::lemma_needed_ends;
use crate::plan::needed_frames;
use crate::plan::uncompressed_between;
use crate::plan::values_before;
use crate::plan::FrameOutcome;
use crate::rows::cell;
use crate::rows::cells;
use crate::rows::law_present_spread;
use crate::rows::law_spread_present;
use crate::rows::lemma_cells_concat;
use crate::rows::lemma_present_len;
use crate::rows::lemma_present_subrange;
use crate::rows::present;
use crate::rows::row_mask;
use crate::rows::spread;
use crate::rows::Rows;
use crate::validity::child_view;
use crate::validity::lemma_valid_count_bounds;
use crate::validity::valid_count;
use crate::validity::ValidityChild;
use crate::validity::ValidityView;
use crate::views::law_places_fit;
use crate::views::viewable;
use crate::views::MAX_BUFFER_LEN;
use vstd::prelude::*;

verus! {

/// The number of parts before the `i`th frame.
spec fn parts_before(n: nat, per_frame: nat, i: int) -> int {
    if i * per_frame < n {
        i * per_frame
    } else {
        n as int
    }
}

/// The frames before a given one hold the parts before it.
proof fn lemma_values_before(
    frames: Seq<Seq<u8>>,
    metas: Seq<Lz4FrameMetadata>,
    parts: Seq<Seq<u8>>,
    per_frame: nat,
    width: nat,
    i: int,
)
    requires
        frames_hold(frames, metas, parts, per_frame),
        0 <= i <= frames.len(),
    ensures
        values_before(metas, width, i) == parts_before(parts.len(), per_frame, i),
        i < frames.len() ==> i * per_frame < parts.len(),
        i == frames.len() ==> parts_before(parts.len(), per_frame, i) == parts.len(),
        0 <= parts_before(parts.len(), per_frame, i) <= parts.len(),
    decreases i,
{
    let n = parts.len();
    assert(i * per_frame >= 0) by (nonlinear_arith)
        requires
            i >= 0,
    ;
    if n > 0 {
        lemma_frame_count(n, per_frame, i);
    }
    if i > 0 {
        lemma_values_before(frames, metas, parts, per_frame, width, i - 1);
        assert(((i - 1) + 1) * per_frame == (i - 1) * per_frame + per_frame) by (nonlinear_arith);
        assert(frame_holds(frames[i - 1], metas[i - 1], frame_parts(parts, per_frame, i - 1)));
        assert(frame_parts(parts, per_frame, i - 1).len() == frame_end(n, per_frame, i - 1) - (i
            - 1) * per_frame);
    } else {
        assert(0 * per_frame == 0) by (nonlinear_arith);
    }
}

/// A run of frames decodes to the parts that it holds.
proof fn lemma_decode(
    frames: Seq<Seq<u8>>,
    metas: Seq<Lz4FrameMetadata>,
    parts: Seq<Seq<u8>>,
    per_frame: nat,
    from: int,
    to: int,
)
    requires
        frames_hold(frames, metas, parts, per_frame),
        0 <= from <= to <= frames.len(),
    ensures
        parts_before(parts.len(), per_frame, from) <= parts_before(parts.len(), per_frame, to),
        decode_frames(frames, metas, from, to) == FrameOutcome::Bytes(
            concat(
                parts.subrange(
                    parts_before(parts.len(), per_frame, from),
                    parts_before(parts.len(), per_frame, to),
                ),
            ),
        ),
        uncompressed_between(metas, from, to) == concat(
            parts.subrange(
                parts_before(parts.len(), per_frame, from),
                parts_before(parts.len(), per_frame, to),
            ),
        ).len(),
    decreases to - from,
{
    let n = parts.len();
    let lo = parts_before(n, per_frame, from);
    let hi = parts_before(n, per_frame, to);
    lemma_values_before(frames, metas, parts, per_frame, 1, from);
    lemma_values_before(frames, metas, parts, per_frame, 1, to);
    if from < to {
        let mid = parts_before(n, per_frame, to - 1);
        lemma_values_before(frames, metas, parts, per_frame, 1, to - 1);
        lemma_decode(frames, metas, parts, per_frame, from, to - 1);
        assert(((to - 1) + 1) * per_frame == (to - 1) * per_frame + per_frame)
            by (nonlinear_arith);
        assert(frame_holds(frames[to - 1], metas[to - 1], frame_parts(parts, per_frame, to - 1)));
        assert(frame_parts(parts, per_frame, to - 1) == parts.subrange(mid, hi));
        lemma_concat_add(parts.subrange(lo, mid), parts.subrange(mid, hi));
        assert(parts.subrange(lo, mid) + parts.subrange(mid, hi) =~= parts.subrange(lo, hi));
    } else {
        assert(parts.subrange(lo, hi) =~= Seq::<Seq<u8>>::empty());
    }
}

/// The frames that a slice needs decode to a run of parts that the slice's values lie in.
proof fn lemma_slice_outcome(
    data: Lz4Data,
    validity: ValidityView,
    parts: Seq<Seq<u8>>,
    per_frame: nat,
    width: nat,
) -> (end: int)
    requires
        data.holds(parts, per_frame),
        data.in_range(),
        validity.covers(data.unsliced_n_rows as nat),
        valid_count(
            validity.mask(data.unsliced_n_rows as nat),
            data.unsliced_n_rows as int,
        ) == parts.len(),
        width > 0,
        compressible_len(concat(parts).len()),
    ensures
        data.fits(width, validity),
        data.frames_decodable(width, validity),
        data.skipped_values(width, validity) <= data.values_to_start(validity)
            <= data.values_to_stop(validity) <= end <= parts.len(),
        data.outcome(width, validity) == FrameOutcome::Bytes(
            concat(parts.subrange(data.skipped_values(width, validity) as int, end)),
        ),
{
    let frames = data.blocks();
    let metas = data.metadata@;
    let n = parts.len();
    let nf = frames.len() as int;
    let mask = validity.mask(data.unsliced_n_rows as nat);
    let start = data.values_to_start(validity);
    let stop = data.values_to_stop(validity);
    lemma_valid_count_bounds(mask, data.slice_start as int, data.slice_stop as int);
    lemma_valid_count_bounds(mask, data.slice_stop as int, data.unsliced_n_rows as int);
    let (first, end) = needed_frames(metas, width, nf, start, stop);
    lemma_needed_ends(metas, width, nf, start, stop);
    lemma_values_before(frames, metas, parts, per_frame, width, first);
    lemma_values_before(frames, metas, parts, per_frame, width, end);
    lemma_decode(frames, metas, parts, per_frame, first, end);
    lemma_concat_range(
        parts,
        parts_before(n, per_frame, first),
        parts_before(n, per_frame, end),
    );
    assert forall|i: int| 0 <= i < nf implies {
        &&& (#[trigger] metas[i]).uncompressed_size <= concat(parts).len()
        &&& metas[i].n_values <= n
        &&& decodable(frames[i], metas[i].uncompressed_size as nat)
    } by {
        lemma_values_before(frames, metas, parts, per_frame, width, i);
        lemma_values_before(frames, metas, parts, per_frame, width, i + 1);
        assert((i + 1) * per_frame == i * per_frame + per_frame) by (nonlinear_arith);
        assert(frame_holds(frames[i], metas[i], frame_parts(parts, per_frame, i)));
        lemma_concat_range(parts, i * per_frame, frame_end(n, per_frame, i));
    }
    assert forall|i: int| first <= i < end implies decodable(
        #[trigger] frames[i],
        metas[i].uncompressed_size as nat,
    ) by {
        assert(metas[i].n_values <= n);
    }
    parts_before(n, per_frame, end)
}

/// The rows of a slice are its values, spread over its mask.
proof fn lemma_slice_rows(rows: Rows, start: int, stop: int)
    requires
        0 <= start <= stop <= rows.len(),
    ensures
        spread(
            present(rows).subrange(
                valid_count(row_mask(rows), start) as int,
                valid_count(row_mask(rows), stop) as int,
            ),
            row_mask(rows).subrange(start, stop),
        ) == rows.subrange(start, stop),
{
    lemma_present_subrange(rows, start, stop);
    law_spread_present(rows.subrange(start, stop));
    assert(row_mask(rows.subrange(start, stop)) =~= row_mask(rows).subrange(start, stop));
}

/// What is read back of a primitive column is what was written: every slice of the encoded column
/// decompresses, without an error, to the rows of that slice of the column.
///
/// It holds of every slice, of every number of values per frame, and of nulls anywhere, for any
/// validity that marks the column's rows and agrees with the type that is asked for.
pub proof fn law_primitive_roundtrip(
    parray: PrimitiveArray,
    per_frame: nat,
    data: Lz4Data,
    dtype: DType,
    validity: ValidityView,
)
    requires
        parray.wf(),
        compressible_len(concat(present(parray.rows())).len()),
        data.holds(present(parray.rows()), per_frame),
        data.unsliced_n_rows == parray.len,
        data.in_range(),
        dtype matches DType::Primitive(ptype, _) && ptype == parray.ptype,
        validity.covers(parray.len as nat),
        validity.mask(parray.len as nat) == parray.mask(),
        validity_agrees(dtype, validity),
    ensures
        data.decompressible(dtype, validity),
        data.outcome(value_width(dtype), validity) is Bytes,
        data.rows(dtype, validity) == parray.rows().subrange(
            data.slice_start as int,
            data.slice_stop as int,
        ),
{
    let rows = parray.rows();
    let parts = present(rows);
    let width = parray.ptype.width();
    assert(row_mask(rows) =~= parray.mask());
    lemma_present_len(rows);
    parray.lemma_present_width();
    let end = lemma_slice_outcome(data, validity, parts, per_frame, width);
    let skipped = data.skipped_values(width, validity) as int;
    let first = data.values_to_start(validity) as int;
    let last = data.values_to_stop(validity) as int;
    let run = parts.subrange(skipped, end);
    lemma_cells_concat(run, width);
    assert((last - skipped) * width <= (end - skipped) * width) by (nonlinear_arith)
        requires
            last <= end,
    ;
    data.lemma_slice_mask(dtype, validity);
    lemma_slice_rows(rows, data.slice_start as int, data.slice_stop as int);
    let window = Seq::new(
        (last - first) as nat,
        |k: int| cell(concat(run), width, first - skipped + k),
    );
    assert forall|k: int| 0 <= k < last - first implies #[trigger] window[k] == parts.subrange(
        first,
        last,
    )[k] by {
        assert(cells(concat(run), width, run.len())[first - skipped + k] == run[first - skipped
            + k]);
    }
    assert(window =~= parts.subrange(first, last));
}

/// What the frames of a column of byte strings decode to for a slice parses, and the values that it
/// holds are a run of the column's values that the slice's values lie in.
proof fn lemma_var_bin_outcome(
    vbv: VarBinViewArray,
    per_frame: nat,
    data: Lz4Data,
    validity: ValidityView,
)
    requires
        vbv.wf(),
        compressible_len(concat(all_prefixed(present(vbv.rows()))).len()),
        data.holds(all_prefixed(present(vbv.rows())), per_frame),
        data.unsliced_n_rows == vbv.views@.len(),
        data.in_range(),
        validity.covers(vbv.views@.len()),
        validity.mask(vbv.views@.len()) == vbv.mask(),
    ensures
        data.fits(1, validity),
        data.frames_decodable(1, validity),
        data.outcome(1, validity) matches FrameOutcome::Bytes(bytes) && {
            let values = present(vbv.rows());
            let skipped = data.skipped_values(1, validity) as int;
            &&& viewable(bytes, MAX_BUFFER_LEN as nat)
            &&& parse_values(bytes) matches Some(run) && {
                &&& skipped <= data.values_to_start(validity) <= data.values_to_stop(validity)
                    <= skipped + run.len() <= values.len()
                &&& run == values.subrange(skipped, skipped + run.len())
            }
        },
{
    let values = present(vbv.rows());
    let parts = all_prefixed(values);
    let max = MAX_BUFFER_LEN as nat;
    assert(row_mask(vbv.rows()) =~= vbv.mask());
    lemma_present_len(vbv.rows());
    vbv.lemma_present_lens();
    let end = lemma_slice_outcome(data, validity, parts, per_frame, 1);
    let skipped = data.skipped_values(1, validity) as int;
    let run = values.subrange(skipped, end);
    assert(parts.subrange(skipped, end) =~= all_prefixed(run));
    assert forall|i: int| 0 <= i < run.len() implies (#[trigger] run[i]).len() <= u32::MAX by {
        assert(run[i] == values[skipped + i]);
    }
    law_stream_roundtrip(run);
    lemma_concat_range(parts, skipped, end);
    lemma_value_start(run, run.len() as int);
    assert(all_prefixed(run).take(run.len() as int) =~= all_prefixed(run));
    assert(value_start(run, run.len() as int) <= concat(parts).len());
    law_places_fit(run, max);
    assert(run =~= values.subrange(skipped, skipped + run.len()));
}

/// What is read back of a column of byte strings is what was written: every slice of the encoded
/// column decompresses, without an error, to the rows of that slice of the column.
///
/// It holds of every slice, of every number of values per frame, and of nulls anywhere, for any
/// validity that marks the column's rows and agrees with the type that is asked for.
pub proof fn law_var_bin_roundtrip(
    vbv: VarBinViewArray,
    per_frame: nat,
    data: Lz4Data,
    dtype: DType,
    validity: ValidityView,
)
    requires
        vbv.wf(),
        compressible_len(concat(all_prefixed(present(vbv.rows()))).len()),
        data.holds(all_prefixed(present(vbv.rows())), per_frame),
        data.unsliced_n_rows == vbv.views@.len(),
        data.in_range(),
        dtype is Utf8 || dtype is Binary,
        validity.covers(vbv.views@.len()),
        validity.mask(vbv.views@.len()) == vbv.mask(),
        validity_agrees(dtype, validity),
    ensures
        data.decompressible(dtype, validity),
        data.outcome(value_width(dtype), validity) is Bytes,
        data.rows(dtype, validity) == vbv.rows().subrange(
            data.slice_start as int,
            data.slice_stop as int,
        ),
{
    let rows = vbv.rows();
    let values = present(rows);
    assert(row_mask(rows) =~= vbv.mask());
    lemma_var_bin_outcome(vbv, per_frame, data, validity);
    let run = parse_values(data.outcome(1, validity)->Bytes_0)->0;
    let skipped = data.skipped_values(1, validity) as int;
    let first = data.values_to_start(validity) as int;
    let last = data.values_to_stop(validity) as int;
    data.lemma_slice_mask(dtype, validity);
    lemma_slice_rows(rows, data.slice_start as int, data.slice_stop as int);
    assert(run.subrange(first - skipped, last - skipped) =~= values.subrange(first, last));
}

/// The window into the stream that a column of byte strings is decompressed to holds the values of
/// the slice: the stream parses, and the values that follow the skipped ones are those of the
/// slice's rows that hold one, in their order.
pub proof fn law_var_bin_window(
    vbv: VarBinViewArray,
    per_frame: nat,
    data: Lz4Data,
    validity: ValidityView,
)
    requires
        vbv.wf(),
        compressible_len(concat(all_prefixed(present(vbv.rows()))).len()),
        data.holds(all_prefixed(present(vbv.rows())), per_frame),
        data.unsliced_n_rows == vbv.views@.len(),
        data.in_range(),
        validity.covers(vbv.views@.len()),
        validity.mask(vbv.views@.len()) == vbv.mask(),
    ensures
        data.var_bin_decompressible(validity),
        data.outcome(1, validity) matches FrameOutcome::Bytes(bytes) && {
            let skip = data.values_to_start(validity) - data.skipped_values(1, validity);
            let n = data.values_to_stop(validity) - data.values_to_start(validity);
            &&& parse_values(bytes) matches Some(run) && 0 <= skip <= skip + n <= run.len()
                && run.subrange(skip, skip + n) == present(
                vbv.rows().subrange(data.slice_start as int, data.slice_stop as int),
            )
        },
{
    lemma_var_bin_outcome(vbv, per_frame, data, validity);
    assert(row_mask(vbv.rows()) =~= vbv.mask());
    lemma_present_subrange(vbv.rows(), data.slice_start as int, data.slice_stop as int);
    let bytes = data.outcome(1, validity)->Bytes_0;
    let run = parse_values(bytes)->0;
    let skip = data.values_to_start(validity) - data.skipped_values(1, validity);
    let n = data.values_to_stop(validity) - data.values_to_start(validity);
    assert(run.subrange(skip, skip + n) =~= present(
        vbv.rows().subrange(data.slice_start as int, data.slice_stop as int),
    ));
}

/// What [`Lz4::from_primitive`](crate::array::Lz4::from_primitive) makes of a primitive column holds
/// the column: every slice of the array decompresses, without an error, to the rows of that slice,
/// and so does every single row.
pub proof fn law_primitive_array_roundtrip(
    parray: PrimitiveArray,
    values_per_frame: nat,
    array: Lz4Array,
    start: int,
    stop: int,
)
    requires
        primitive_encodable(parray),
        array.dtype == parray.dtype_spec(),
        array.data.encodes_primitive(parray, values_per_frame),
        array.unsliced_validity_spec() == parray.validity@,
        0 <= start <= stop <= parray.len,
    ensures
        array.sliced(start, stop).decompressible(),
        array.sliced(start, stop).outcome() is Bytes,
        array.sliced(start, stop).rows() == parray.rows().subrange(start, stop),
{
    let per_frame = frame_capacity(
        values_per_frame,
        present(parray.rows()).len(),
        parray.alignment as nat / parray.ptype.width(),
    );
    law_primitive_roundtrip(
        parray,
        per_frame,
        array.data.sliced(start, stop),
        array.dtype,
        parray.validity@,
    );
}

/// What [`Lz4::from_var_bin_view`](crate::array::Lz4::from_var_bin_view) makes of a column of byte
/// strings holds the column: every slice of the array decompresses, without an error, to the rows
/// of that slice, and so does every single row.
pub proof fn law_var_bin_array_roundtrip(
    vbv: VarBinViewArray,
    values_per_frame: nat,
    array: Lz4Array,
    start: int,
    stop: int,
)
    requires
        var_bin_encodable(vbv),
        array.dtype == vbv.dtype,
        array.data.encodes_var_bin(vbv, values_per_frame),
        array.unsliced_validity_spec() == vbv.validity@,
        0 <= start <= stop <= vbv.views@.len(),
    ensures
        array.sliced(start, stop).decompressible(),
        array.sliced(start, stop).outcome() is Bytes,
        array.sliced(start, stop).rows() == vbv.rows().subrange(start, stop),
{
    let per_frame = frame_capacity(values_per_frame, present(vbv.rows()).len(), 1);
    law_var_bin_roundtrip(
        vbv,
        per_frame,
        array.data.sliced(start, stop),
        array.dtype,
        vbv.validity@,
    );
}

/// An unsliced array is read back from its serialized metadata, its frames and its children as it
/// was.
pub proof fn law_serialized_array_roundtrip(array: Lz4Array, read: Lz4Array)
    requires
        array.data.is_whole(array.len as nat),
        parse_metadata(metadata_message(array.data.metadata@), Seq::empty()) == Some(
            read.data.metadata@,
        ),
        read.dtype == array.dtype,
        read.len == array.len,
        read.data.blocks() == array.data.blocks(),
        read.data.is_whole(array.len as nat),
        child_view(read.validity_slot) == child_view(array.validity_slot),
    ensures
        read.same(array),
        read.rows() == array.rows(),
{
    law_metadata_roundtrip(array.data.metadata@);
    read.lemma_same(array);
}

/// Every frame of a primitive column begins at a multiple of the alignment of the column's values.
pub proof fn law_frames_aligned(
    values_per_frame: nat,
    n: nat,
    width: nat,
    alignment: nat,
    i: int,
)
    requires
        width > 0,
        alignment > 0,
        alignment % width == 0,
        0 <= i < frame_count(n, frame_capacity(values_per_frame, n, alignment / width)),
    ensures
        (i * frame_capacity(values_per_frame, n, alignment / width) * width) % (alignment as int)
            == 0,
{
    let unit = (alignment / width) as int;
    let a = alignment as int;
    let w = width as int;
    let capacity = frame_capacity(values_per_frame, n, alignment / width) as int;
    vstd::arithmetic::div_mod::lemma_fundamental_div_mod(a, w);
    assert(unit > 0) by (nonlinear_arith)
        requires
            a == w * unit,
            a > 0,
            w > 0,
    ;
    lemma_frame_capacity(values_per_frame, n, unit as nat);
    if capacity < n {
        let c = capacity / unit;
        vstd::arithmetic::div_mod::lemma_fundamental_div_mod(capacity, unit);
        assert(i * capacity * w == (i * c) * a) by (nonlinear_arith)
            requires
                capacity == unit * c,
                a == w * unit,
        ;
        vstd::arithmetic::div_mod::lemma_mod_multiples_basic(i * c, a);
    } else {
        lemma_frame_count(n, capacity as nat, i);
        assert(i == 0) by (nonlinear_arith)
            requires
                i >= 0,
                i * capacity < n,
                capacity >= n,
        ;
        assert(i * capacity * w == 0) by (nonlinear_arith)
            requires
                i == 0,
        ;
        vstd::arithmetic::div_mod::lemma_small_mod(0, alignment);
    }
}

/// The window that decompressing a column of byte strings returns holds the slice: what was written
/// parses, and of its values the `n_values` behind the first `skip_values` are exactly those of the
/// slice's rows that hold one, in their order.
///
/// It holds of every slice, of every number of values per frame, and of nulls anywhere, for any
/// validity that marks the column's rows.
pub proof fn law_var_bin_window_holds_slice(
    vbv: VarBinViewArray,
    per_frame: nat,
    data: Lz4Data,
    validity: ValidityView,
    stream: Seq<u8>,
    window: VarBinDecompressed,
)
    requires
        vbv.wf(),
        compressible_len(concat(all_prefixed(present(vbv.rows()))).len()),
        data.holds(all_prefixed(present(vbv.rows())), per_frame),
        data.unsliced_n_rows == vbv.views@.len(),
        data.in_range(),
        validity.covers(vbv.views@.len()),
        validity.mask(vbv.views@.len()) == vbv.mask(),
        data.is_var_bin_window(validity, stream, window),
    ensures
        parse_values(stream) matches Some(values) && {
            &&& window.skip_values + window.n_values <= values.len()
            &&& values.subrange(
                window.skip_values as int,
                window.skip_values + window.n_values,
            ) == present(vbv.rows().subrange(data.slice_start as int, data.slice_stop as int))
        },
{
    law_var_bin_window(vbv, per_frame, data, validity);
}

/// The two ways to read byte strings agree, on any frames: the values in the window that
/// decompressing into a stream returns are the values of the rows that decompressing gives.
pub proof fn law_var_bin_window_agrees_with_rows(
    data: Lz4Data,
    dtype: DType,
    validity: ValidityView,
    stream: Seq<u8>,
    window: VarBinDecompressed,
)
    requires
        dtype is Utf8 || dtype is Binary,
        data.in_range(),
        validity.covers(data.unsliced_n_rows as nat),
        validity_agrees(dtype, validity),
        data.is_var_bin_window(validity, stream, window),
        parse_values(stream) matches Some(values) && window.skip_values + window.n_values
            <= values.len(),
    ensures
        parse_values(stream)->0.subrange(
            window.skip_values as int,
            window.skip_values + window.n_values,
        ) == present(data.rows(dtype, validity)),
{
    let values = parse_values(stream)->0;
    let mask = data.slice_mask(dtype, validity);
    data.lemma_slice_mask(dtype, validity);
    let held = values.subrange(
        window.skip_values as int,
        window.skip_values + window.n_values,
    );
    law_present_spread(held, mask);
    assert(data.rows(dtype, validity) == spread(held, mask));
}

/// Compressing a primitive column, slicing the array and decompressing the slice gives the rows of
/// that slice back: a row is null exactly where the column's is, and any other row holds the very
/// bytes that stand in the column's cell.
pub proof fn law_primitive_calls(
    parray: PrimitiveArray,
    values_per_frame: usize,
    array: Lz4Array,
    start: usize,
    stop: usize,
    part: Lz4Array,
    decompressed: Result<Decompressed, Lz4Error>,
    i: int,
)
    requires
        primitive_encodable(parray),
        call_ensures(
            Lz4::from_primitive,
            (&parray, values_per_frame),
            Ok::<Lz4Array, Lz4Error>(array),
        ),
        start <= stop <= parray.len,
        call_ensures(Lz4Array::slice, (&array, start, stop), part),
        call_ensures(Lz4::decompress, (&part,), decompressed),
        0 <= i < stop - start,
    ensures
        part.decompressible(),
        decompressed matches Ok(Decompressed::Primitive(back)) && {
            let width = parray.ptype.width();
            &&& back.wf()
            &&& back.ptype == parray.ptype
            &&& back.len == stop - start
            &&& (back.validity is NonNullable) == (parray.validity is NonNullable)
            &&& back.validity@.mask(back.len as nat)[i] == parray.validity@.mask(
                parray.len as nat,
            )[start + i]
            &&& parray.validity@.mask(parray.len as nat)[start + i] ==> back.values@.subrange(
                i * width,
                i * width + width,
            ) == parray.values@.subrange((start + i) * width, (start + i) * width + width)
        },
{
    law_primitive_array_roundtrip(
        parray,
        values_per_frame as nat,
        array,
        start as int,
        stop as int,
    );
    let sliced = array.sliced(start as int, stop as int);
    part.lemma_same(sliced);
    assert(decompressed is Ok);
    let d = decompressed->Ok_0;
    assert(d.rows() == parray.rows().subrange(start as int, stop as int));
    assert(d is Primitive);
    let back = d->Primitive_0;
    assert(back.rows()[i] == parray.rows()[start + i]);
}

/// Compressing a column of byte strings, slicing the array and decompressing the slice gives the
/// rows of that slice back: nulls where the column has them, and else the same byte strings.
pub proof fn law_var_bin_calls(
    vbv: VarBinViewArray,
    values_per_frame: usize,
    array: Lz4Array,
    start: usize,
    stop: usize,
    part: Lz4Array,
    decompressed: Result<Decompressed, Lz4Error>,
    i: int,
)
    requires
        var_bin_encodable(vbv),
        call_ensures(
            Lz4::from_var_bin_view,
            (&vbv, values_per_frame),
            Ok::<Lz4Array, Lz4Error>(array),
        ),
        start <= stop <= vbv.views@.len(),
        call_ensures(Lz4Array::slice, (&array, start, stop), part),
        call_ensures(Lz4::decompress, (&part,), decompressed),
        0 <= i < stop - start,
    ensures
        part.decompressible(),
        decompressed matches Ok(back) && {
            &&& back.wf()
            &&& back.dtype_spec() == vbv.dtype
            &&& back.rows().len() == stop - start
            &&& back.rows()[i] == vbv.rows()[start + i]
        },
{
    law_var_bin_array_roundtrip(vbv, values_per_frame as nat, array, start as int, stop as int);
    let sliced = array.sliced(start as int, stop as int);
    part.lemma_same(sliced);
    assert(decompressed is Ok);
    let d = decompressed->Ok_0;
    assert(d.rows() == vbv.rows().subrange(start as int, stop as int));
}

/// The value of a single row of a compressed primitive column is that row of the column.
pub proof fn law_primitive_scalar_calls(
    parray: PrimitiveArray,
    values_per_frame: usize,
    array: Lz4Array,
    index: usize,
    scalar: Result<Option<Vec<u8>>, Lz4Error>,
)
    requires
        primitive_encodable(parray),
        call_ensures(
            Lz4::from_primitive,
            (&parray, values_per_frame),
            Ok::<Lz4Array, Lz4Error>(array),
        ),
        index < parray.len,
        call_ensures(Lz4::scalar_at, (&array, index), scalar),
    ensures
        scalar matches Ok(value) && match value {
            None => parray.rows()[index as int] is None,
            Some(bytes) => parray.rows()[index as int] == Some(bytes@),
        },
{
    law_primitive_array_roundtrip(
        parray,
        values_per_frame as nat,
        array,
        index as int,
        index + 1,
    );
    assert(parray.rows().subrange(index as int, index + 1)[0] == parray.rows()[index as int]);
}

/// The value of a single row of a compressed column of byte strings is that row of the column.
pub proof fn law_var_bin_scalar_calls(
    vbv: VarBinViewArray,
    values_per_frame: usize,
    array: Lz4Array,
    index: usize,
    scalar: Result<Option<Vec<u8>>, Lz4Error>,
)
    requires
        var_bin_encodable(vbv),
        call_ensures(
            Lz4::from_var_bin_view,
            (&vbv, values_per_frame),
            Ok::<Lz4Array, Lz4Error>(array),
        ),
        index < vbv.views@.len(),
        call_ensures(Lz4::scalar_at, (&array, index), scalar),
    ensures
        scalar matches Ok(value) && match value {
            None => vbv.rows()[index as int] is None,
            Some(bytes) => vbv.rows()[index as int] == Some(bytes@),
        },
{
    law_var_bin_array_roundtrip(vbv, values_per_frame as nat, array, index as int, index + 1);
    assert(vbv.rows().subrange(index as int, index + 1)[0] == vbv.rows()[index as int]);
}

/// An unsliced array that is serialized and read back from its metadata, its frames and its children
/// is the same array, with the same rows.
pub proof fn law_serialize_calls(
    array: Lz4Array,
    serialized: Result<Option<Vec<u8>>, Lz4Error>,
    bytes: &[u8],
    buffers: Vec<ByteBuffer>,
    children: Vec<ValidityChild>,
    read: Result<Lz4Array, Lz4Error>,
)
    requires
        array.wf(),
        array.data.slice_start == 0,
        array.data.slice_stop == array.data.unsliced_n_rows,
        call_ensures(Lz4::serialize, (&array,), serialized),
        serialized matches Ok(Some(b)) ==> bytes@ == b@,
        buffer_bytes(buffers@) == array.data.blocks(),
        call_ensures(Lz4Array::children, (&array,), children),
        call_ensures(
            Lz4::deserialize,
            (&array.dtype, array.len, bytes, &buffers, &children),
            read,
        ),
    ensures
        read matches Ok(back) && {
            &&& back.dtype == array.dtype
            &&& back.len == array.len
            &&& back.data.metadata.frames@ == array.data.metadata.frames@
            &&& back.data.blocks() == array.data.blocks()
            &&& back.same(array)
            &&& back.rows() == array.rows()
        },
{
    law_metadata_roundtrip(array.data.metadata@);
    let back = read->Ok_0;
    assert(read is Ok);
    law_serialized_array_roundtrip(array, back);
}

} // verus!
