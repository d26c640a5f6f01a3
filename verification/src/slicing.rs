//! Slicing and decompressing, in either order.

use crate::array::Lz4Array;
use crate::arrays::PrimitiveArray;
use crate::arrays::VarBinViewArray;
use crate::bytes::all_prefixed;
use crate::bytes::concat;
use crate::bytes::law_stream_roundtrip;
use crate::bytes::lemma_concat_add;
use crate::bytes::lemma_concat_uniform;
use crate::bytes::lemma_parse_values_exact;
use crate::bytes::parse_values;
use crate::codec::block_decoded;
use crate::data::value_width;
use crate::data::Lz4Data;
use crate::decompress::no_row_valid;
use crate::decompress::validity_agrees;
use crate::dtype::DType;
use crate::frames::frame_capacity;
use crate::frames::frame_count;
use crate::frames::frame_end;
use crate::frames::frame_holds;
use crate::frames::frame_parts;
use crate::frames::lemma_frame_count;
use crate::metadata::Lz4FrameMetadata;
use crate::plan::decode_frames;
use crate::plan::frame_values;
use crate::plan::law_needed_frames_overlap_slice;
use crate::plan::lemma_needed_ends;
use crate::plan::lemma_uncompressed_run;
use crate::plan::lemma_values_before_monotone;
use crate::plan::paired_frames;
use crate::plan::values_before;
use crate::plan::FrameOutcome;
use crate::rows::cell;
use crate::rows::cells;
use crate::rows::lemma_cells_concat;
use crate::rows::lemma_concat_cells;
use crate::rows::present;
use crate::rows::spread;
use crate::validity::lemma_valid_count_bounds;
use crate::validity::lemma_valid_count_constant;
use crate::validity::lemma_valid_count_subrange;
use crate::validity::valid_count;
use crate::validity::ValidityView;
use crate::views::lemma_places_fit_run;
use crate::views::MAX_BUFFER_LEN;
use vstd::prelude::*;

verus! {

/// The values that a frame's bytes hold, `count` of them.
pub open spec fn values_in(dtype: DType, bytes: Seq<u8>, count: nat) -> Seq<Seq<u8>> {
    match dtype {
        DType::Primitive(ptype, _) => cells(bytes, ptype.width(), count),
        _ => parse_values(bytes)->0,
    }
}

/// Whether a frame decodes to the size that its metadata says, and holds as many values as its
/// metadata says.
pub open spec fn count_is_true(dtype: DType, frame: Seq<u8>, meta: Lz4FrameMetadata) -> bool {
    let count = frame_values(meta, value_width(dtype));
    block_decoded(frame, meta.uncompressed_size as nat) matches Some(bytes) && {
        &&& bytes.len() == meta.uncompressed_size
        &&& match dtype {
            DType::Primitive(ptype, _) => bytes.len() == count * ptype.width(),
            _ => parse_values(bytes) matches Some(values) && values.len() == count,
        }
    }
}

impl Lz4Data {
    /// Whether the metadata of each frame that the slice needs tells the true number of values in
    /// it.
    pub open spec fn counts_true(self, dtype: DType, validity: ValidityView) -> bool {
        let (first, end) = self.needed(value_width(dtype), validity);
        forall|i: int|
            first <= i < end ==> count_is_true(
                dtype,
                #[trigger] self.blocks()[i],
                self.metadata@[i],
            )
    }
}

/// The values that the frames `from..to` hold, one frame behind the other.
spec fn run_values(
    dtype: DType,
    frames: Seq<Seq<u8>>,
    metas: Seq<Lz4FrameMetadata>,
    from: int,
    to: int,
) -> Seq<Seq<u8>>
    decreases to - from,
{
    if to <= from {
        Seq::empty()
    } else {
        run_values(dtype, frames, metas, from, to - 1) + values_in(
            dtype,
            block_decoded(frames[to - 1], metas[to - 1].uncompressed_size as nat)->0,
            frame_values(metas[to - 1], value_width(dtype)),
        )
    }
}

/// The bytes in which values are stored.
spec fn stored(dtype: DType, values: Seq<Seq<u8>>) -> Seq<u8> {
    match dtype {
        DType::Primitive(_, _) => concat(values),
        _ => concat(all_prefixed(values)),
    }
}

/// Whether values have the type's width, or a length that fits its field.
spec fn storable(dtype: DType, values: Seq<Seq<u8>>) -> bool {
    forall|k: int|
        0 <= k < values.len() ==> match dtype {
            DType::Primitive(ptype, _) => (#[trigger] values[k]).len() == ptype.width(),
            _ => values[k].len() <= u32::MAX,
        }
}

/// Storing two rows of values.
proof fn lemma_stored_add(dtype: DType, a: Seq<Seq<u8>>, b: Seq<Seq<u8>>)
    ensures
        stored(dtype, a + b) == stored(dtype, a) + stored(dtype, b),
        storable(dtype, a) && storable(dtype, b) ==> storable(dtype, a + b),
{
    lemma_concat_add(a, b);
    lemma_concat_add(all_prefixed(a), all_prefixed(b));
    assert(all_prefixed(a + b) =~= all_prefixed(a) + all_prefixed(b));
}

/// A frame with a true count stores the values that it holds.
proof fn lemma_frame_stores(dtype: DType, frame: Seq<u8>, meta: Lz4FrameMetadata)
    requires
        count_is_true(dtype, frame, meta),
    ensures
        ({
            let bytes = block_decoded(frame, meta.uncompressed_size as nat)->0;
            let count = frame_values(meta, value_width(dtype));
            let values = values_in(dtype, bytes, count);
            &&& values.len() == count
            &&& storable(dtype, values)
            &&& stored(dtype, values) == bytes
        }),
{
    let bytes = block_decoded(frame, meta.uncompressed_size as nat)->0;
    let count = frame_values(meta, value_width(dtype));
    match dtype {
        DType::Primitive(ptype, _) => {
            let width = ptype.width();
            lemma_concat_cells(bytes, width, count);
            assert(bytes.take((count * width) as int) =~= bytes);
            assert forall|k: int| 0 <= k < count implies (#[trigger] cells(
                bytes,
                width,
                count,
            )[k]).len() == width by {
                crate::rows::lemma_cell_bounds(k, count as int, width);
            }
        },
        _ => {
            lemma_parse_values_exact(bytes);
        },
    }
}

/// A run of frames with true counts decodes to the stored values of the run.
proof fn lemma_run_decodes(
    dtype: DType,
    frames: Seq<Seq<u8>>,
    metas: Seq<Lz4FrameMetadata>,
    from: int,
    to: int,
)
    requires
        0 <= from <= to,
        forall|i: int|
            from <= i < to ==> count_is_true(dtype, #[trigger] frames[i], metas[i]),
    ensures
        ({
            let values = run_values(dtype, frames, metas, from, to);
            &&& values.len() == values_before(metas, value_width(dtype), to) - values_before(
                metas,
                value_width(dtype),
                from,
            )
            &&& storable(dtype, values)
            &&& decode_frames(frames, metas, from, to) == FrameOutcome::Bytes(
                stored(dtype, values),
            )
        }),
    decreases to - from,
{
    if from < to {
        lemma_run_decodes(dtype, frames, metas, from, to - 1);
        assert(count_is_true(dtype, frames[to - 1], metas[to - 1]));
        lemma_frame_stores(dtype, frames[to - 1], metas[to - 1]);
        lemma_stored_add(
            dtype,
            run_values(dtype, frames, metas, from, to - 1),
            values_in(
                dtype,
                block_decoded(frames[to - 1], metas[to - 1].uncompressed_size as nat)->0,
                frame_values(metas[to - 1], value_width(dtype)),
            ),
        );
    } else {
        assert(all_prefixed(Seq::<Seq<u8>>::empty()) =~= Seq::<Seq<u8>>::empty());
    }
}

/// A run of frames is two runs.
proof fn lemma_run_splits(
    dtype: DType,
    frames: Seq<Seq<u8>>,
    metas: Seq<Lz4FrameMetadata>,
    from: int,
    mid: int,
    to: int,
)
    requires
        from <= mid <= to,
    ensures
        run_values(dtype, frames, metas, from, to) == run_values(dtype, frames, metas, from, mid)
            + run_values(dtype, frames, metas, mid, to),
    decreases to - mid,
{
    if mid < to {
        lemma_run_splits(dtype, frames, metas, from, mid, to - 1);
        assert(run_values(dtype, frames, metas, from, to) =~= run_values(
            dtype,
            frames,
            metas,
            from,
            mid,
        ) + run_values(dtype, frames, metas, mid, to));
    } else {
        assert(run_values(dtype, frames, metas, from, to) =~= run_values(
            dtype,
            frames,
            metas,
            from,
            mid,
        ) + run_values(dtype, frames, metas, mid, to));
    }
}

/// The rows that are taken from stored values.
proof fn lemma_rows_of_stored(
    data: Lz4Data,
    dtype: DType,
    validity: ValidityView,
    skipped: nat,
    values: Seq<Seq<u8>>,
)
    requires
        dtype !is Other,
        storable(dtype, values),
        skipped <= data.values_to_start(validity) <= data.values_to_stop(validity) <= skipped
            + values.len(),
    ensures
        data.assembled_rows(dtype, validity, skipped, stored(dtype, values)) == spread(
            values.subrange(
                data.values_to_start(validity) - skipped,
                data.values_to_stop(validity) - skipped,
            ),
            data.slice_mask(dtype, validity),
        ),
        dtype matches DType::Primitive(ptype, _) ==> (data.values_to_stop(validity) - skipped)
            * ptype.width() <= stored(dtype, values).len(),
        dtype !is Primitive ==> parse_values(stored(dtype, values)) == Some(values),
{
    let start = data.values_to_start(validity) - skipped;
    let stop = data.values_to_stop(validity) - skipped;
    match dtype {
        DType::Primitive(ptype, _) => {
            let width = ptype.width();
            let bytes = concat(values);
            lemma_cells_concat(values, width);
            assert(stop * width <= values.len() * width) by (nonlinear_arith)
                requires
                    stop <= values.len(),
            ;
            let window = Seq::new((stop - start) as nat, |k: int| cell(bytes, width, start + k));
            assert forall|k: int| 0 <= k < stop - start implies #[trigger] window[k]
                == values.subrange(start, stop)[k] by {
                assert(cells(bytes, width, values.len())[start + k] == values[start + k]);
            }
            assert(window =~= values.subrange(start, stop));
        },
        _ => {
            law_stream_roundtrip(values);
        },
    }
}

/// The rows of a part of a slice are that part of the slice's rows, where both are spread from the
/// same values.
proof fn lemma_spread_part(
    values: Seq<Seq<u8>>,
    mask: Seq<bool>,
    part_values: Seq<Seq<u8>>,
    start: int,
    stop: int,
)
    requires
        0 <= start <= stop <= mask.len(),
        valid_count(mask, mask.len() as int) <= values.len(),
        part_values == values.subrange(
            valid_count(mask, start) as int,
            valid_count(mask, stop) as int,
        ),
    ensures
        spread(part_values, mask.subrange(start, stop)) == spread(values, mask).subrange(
            start,
            stop,
        ),
{
    let part_mask = mask.subrange(start, stop);
    lemma_valid_count_bounds(mask, start, stop);
    lemma_valid_count_bounds(mask, stop, mask.len() as int);
    assert forall|i: int| 0 <= i < stop - start implies #[trigger] spread(part_values, part_mask)[i]
        == spread(values, mask)[start + i] by {
        lemma_valid_count_subrange(mask, start, stop, i);
        if mask[start + i] {
            lemma_valid_count_bounds(mask, start, start + i);
            lemma_valid_count_bounds(mask, start + i + 1, stop);
        }
    }
    assert(spread(part_values, part_mask) =~= spread(values, mask).subrange(start, stop));
}

/// Rows without a value are the same, whatever values they are spread from.
proof fn lemma_spread_none(a: Seq<Seq<u8>>, b: Seq<Seq<u8>>, mask: Seq<bool>, start: int, stop: int)
    requires
        0 <= start <= stop <= mask.len(),
        valid_count(mask, mask.len() as int) == 0,
    ensures
        spread(b, mask.subrange(start, stop)) == spread(a, mask).subrange(start, stop),
{
    assert forall|i: int| 0 <= i < mask.len() implies !#[trigger] mask[i] by {
        lemma_valid_count_bounds(mask, 0, i);
        lemma_valid_count_bounds(mask, i + 1, mask.len() as int);
    }
    assert(spread(b, mask.subrange(start, stop)) =~= spread(a, mask).subrange(start, stop));
}

/// Where the frames that a part of a slice needs lie among those that the slice needs.
proof fn lemma_part_needs(
    data: Lz4Data,
    width: nat,
    validity: ValidityView,
    start: int,
    stop: int,
)
    requires
        data.in_range(),
        validity.covers(data.unsliced_n_rows as nat),
        0 <= start <= stop <= data.slice_stop - data.slice_start,
        data.fits(width, validity),
        data.frames_decodable(width, validity),
    ensures
        ({
            let part = data.sliced(start, stop);
            let (first, end) = data.needed(width, validity);
            let (part_first, part_end) = part.needed(width, validity);
            let n = paired_frames(data.blocks().len(), data.metadata@.len());
            &&& 0 <= first <= end <= n
            &&& 0 <= part_first <= part_end <= end
            &&& part_first < part_end ==> first <= part_first
            &&& data.values_to_start(validity) <= part.values_to_start(validity)
                <= part.values_to_stop(validity) <= data.values_to_stop(validity)
            &&& part.skipped_values(width, validity) <= part.values_to_start(validity)
            &&& data.skipped_values(width, validity) <= data.values_to_start(validity)
            &&& part_end < n ==> part.values_to_stop(validity) <= values_before(
                data.metadata@,
                width,
                part_end,
            )
            &&& part.fits(width, validity)
            &&& part.frames_decodable(width, validity)
        }),
{
    let part = data.sliced(start, stop);
    let metas = data.metadata@;
    let mask = validity.mask(data.unsliced_n_rows as nat);
    let n = paired_frames(data.blocks().len(), metas.len());
    let (first, end) = data.needed(width, validity);
    let (part_first, part_end) = part.needed(width, validity);
    let low = data.values_to_start(validity);
    let high = data.values_to_stop(validity);
    let part_low = part.values_to_start(validity);
    let part_high = part.values_to_stop(validity);
    lemma_valid_count_bounds(mask, data.slice_start as int, part.slice_start as int);
    lemma_valid_count_bounds(mask, part.slice_start as int, part.slice_stop as int);
    lemma_valid_count_bounds(mask, part.slice_stop as int, data.slice_stop as int);
    assert(part.blocks() == data.blocks());
    lemma_needed_ends(metas, width, n, low, high);
    lemma_needed_ends(metas, width, n, part_low, part_high);
    if part_first < part_end {
        law_needed_frames_overlap_slice(metas, width, n, part_low, part_high, part_first);
        law_needed_frames_overlap_slice(metas, width, n, low, high, part_first);
        law_needed_frames_overlap_slice(metas, width, n, part_low, part_high, part_end - 1);
        law_needed_frames_overlap_slice(metas, width, n, low, high, part_end - 1);
        lemma_uncompressed_run(metas, first, part_first, part_end, end);
    } else if part_first > end {
        lemma_values_before_monotone(metas, width, end, part_first - 1);
    }
    lemma_values_before_monotone(metas, width, part_end, end);
}

/// Slicing and decompressing give the same in either order: where the metadata of the frames tells
/// the true number of values in them, a part of a slice that decompresses decompresses too, to that
/// part of the slice's rows.
///
/// It holds of any frames, whoever made them, and of any number of values in each.
pub proof fn law_slice_commutes(
    data: Lz4Data,
    dtype: DType,
    validity: ValidityView,
    start: int,
    stop: int,
)
    requires
        data.in_range(),
        validity.covers(data.unsliced_n_rows as nat),
        data.decompressible(dtype, validity),
        data.outcome(value_width(dtype), validity) is Bytes,
        data.counts_true(dtype, validity),
        0 <= start <= stop <= data.slice_stop - data.slice_start,
    ensures
        data.sliced(start, stop).decompressible(dtype, validity),
        data.sliced(start, stop).outcome(value_width(dtype), validity) is Bytes,
        data.sliced(start, stop).rows(dtype, validity) == data.rows(dtype, validity).subrange(
            start,
            stop,
        ),
{
    let part = data.sliced(start, stop);
    let width = value_width(dtype);
    let frames = data.blocks();
    let metas = data.metadata@;
    let n = paired_frames(frames.len(), metas.len());
    let (first, end) = data.needed(width, validity);
    let (part_first, part_end) = part.needed(width, validity);
    lemma_part_needs(data, width, validity, start, stop);
    assert(part.blocks() == frames);
    lemma_run_decodes(dtype, frames, metas, first, end);
    lemma_run_decodes(dtype, frames, metas, part_first, part_end);
    data.lemma_slice_mask(dtype, validity);
    part.lemma_slice_mask(dtype, validity);
    let all = validity.mask(data.unsliced_n_rows as nat);
    let mask = data.slice_mask(dtype, validity);
    let part_mask = part.slice_mask(dtype, validity);
    assert(part_mask =~= mask.subrange(start, stop));
    let run = run_values(dtype, frames, metas, first, end);
    let part_run = run_values(dtype, frames, metas, part_first, part_end);
    let skipped = data.skipped_values(width, validity) as int;
    let part_skipped = part.skipped_values(width, validity) as int;
    let low = data.values_to_start(validity) as int;
    let high = data.values_to_stop(validity) as int;
    let part_low = part.values_to_start(validity) as int;
    let part_high = part.values_to_stop(validity) as int;
    lemma_valid_count_subrange(all, data.slice_start as int, data.slice_stop as int, start);
    lemma_valid_count_subrange(all, data.slice_start as int, data.slice_stop as int, stop);
    if dtype !is Primitive && no_row_valid(data.slice_validity(dtype, validity)) {
        if data.slice_validity(dtype, validity) is AllInvalid {
            lemma_valid_count_constant(mask, mask.len() as int, false);
        }
        lemma_valid_count_bounds(mask, start, stop);
        lemma_valid_count_bounds(mask, stop, mask.len() as int);
        lemma_valid_count_subrange(mask, start, stop, stop - start);
        lemma_spread_none(
            parse_values(stored(dtype, run))->0.subrange(low - skipped, high - skipped),
            parse_values(stored(dtype, part_run))->0.subrange(
                part_low - part_skipped,
                part_high - part_skipped,
            ),
            mask,
            start,
            stop,
        );
        assert(no_row_valid(part.slice_validity(dtype, validity)));
    } else {
        lemma_slice_within_run(data, dtype, validity, run);
        lemma_rows_of_stored(data, dtype, validity, skipped as nat, run);
        lemma_values_before_monotone(metas, width, first, end);
        // the part's run is a part of the run
        if part_first < part_end {
            lemma_run_splits(dtype, frames, metas, first, part_first, end);
            lemma_run_splits(dtype, frames, metas, part_first, part_end, end);
            lemma_run_decodes(dtype, frames, metas, first, part_first);
            lemma_run_decodes(dtype, frames, metas, part_end, end);
            lemma_values_before_monotone(metas, width, first, part_first);
            lemma_values_before_monotone(metas, width, part_first, part_end);
            let at = part_skipped - skipped;
            assert(part_run =~= run.subrange(at, at + part_run.len()));
            if dtype !is Primitive {
                lemma_places_fit_run(run, MAX_BUFFER_LEN as nat, at, at + part_run.len());
            }
        } else {
            lemma_values_before_monotone(metas, width, part_end, end);
            assert(part_low == part_high);
        }
        lemma_rows_of_stored(part, dtype, validity, part_skipped as nat, part_run);
        let values = run.subrange(low - skipped, high - skipped);
        let part_values = part_run.subrange(part_low - part_skipped, part_high - part_skipped);
        assert(part_values =~= values.subrange(part_low - low, part_high - low));
        lemma_spread_part(values, mask, part_values, start, stop);
    }
}

/// The values of a slice that can be taken from its frames lie among those that the frames hold.
proof fn lemma_slice_within_run(
    data: Lz4Data,
    dtype: DType,
    validity: ValidityView,
    run: Seq<Seq<u8>>,
)
    requires
        storable(dtype, run),
        data.assemblable(
            dtype,
            validity,
            data.skipped_values(value_width(dtype), validity),
            stored(dtype, run),
        ),
        dtype is Primitive || !no_row_valid(data.slice_validity(dtype, validity)),
    ensures
        data.values_to_stop(validity) <= data.skipped_values(value_width(dtype), validity)
            + run.len(),
        dtype !is Other,
        dtype !is Primitive ==> crate::views::places_fit(run, MAX_BUFFER_LEN as nat),
{
    let stop = data.values_to_stop(validity) - data.skipped_values(value_width(dtype), validity);
    match dtype {
        DType::Primitive(ptype, _) => {
            let width = ptype.width() as int;
            lemma_cells_concat(run, ptype.width());
            assert(stop <= run.len()) by (nonlinear_arith)
                requires
                    stop * width <= run.len() * width,
                    width > 0,
            ;
        },
        _ => {
            law_stream_roundtrip(run);
        },
    }
}

/// A single row is what the whole gives: where the metadata of the frames tells the true number of
/// values in them, the value of a row of an array that decompresses is that row of what the array
/// decompresses to, and it is null exactly where the validity says so.
pub proof fn law_scalar_is_row(array: Lz4Array, i: int)
    requires
        array.wf(),
        array.decompressible(),
        array.outcome() is Bytes,
        array.data.counts_true(array.dtype, array.unsliced_validity_spec()),
        0 <= i < array.len,
    ensures
        array.sliced(i, i + 1).decompressible(),
        array.sliced(i, i + 1).outcome() is Bytes,
        array.sliced(i, i + 1).rows()[0] == array.rows()[i],
        array.rows()[i] is None <==> !array.unsliced_validity_spec().mask(
            array.data.unsliced_n_rows as nat,
        )[array.data.slice_start + i],
{
    let validity = array.unsliced_validity_spec();
    law_slice_commutes(array.data, array.dtype, validity, i, i + 1);
    array.data.lemma_slice_mask(array.dtype, validity);
}

/// The metadata of the frames that a primitive column is compressed into tells the true number of
/// values in each.
pub proof fn law_primitive_counts_true(
    parray: PrimitiveArray,
    values_per_frame: nat,
    data: Lz4Data,
    i: int,
)
    requires
        parray.wf(),
        data.encodes_primitive(parray, values_per_frame),
        0 <= i < data.blocks().len(),
    ensures
        count_is_true(parray.dtype_spec(), data.blocks()[i], data.metadata@[i]),
{
    let parts = present(parray.rows());
    let width = parray.ptype.width();
    let per_frame = frame_capacity(
        values_per_frame,
        parts.len(),
        parray.alignment as nat / parray.ptype.width(),
    );
    let held = frame_parts(parts, per_frame, i);
    parray.lemma_present_width();
    lemma_frame_is_filled(parts, per_frame, i);
    assert(frame_holds(data.blocks()[i], data.metadata@[i], held));
    lemma_concat_uniform(held, width);
}

/// The metadata of the frames that a column of byte strings is compressed into tells the true
/// number of values in each.
pub proof fn law_var_bin_counts_true(
    vbv: VarBinViewArray,
    values_per_frame: nat,
    data: Lz4Data,
    i: int,
)
    requires
        vbv.wf(),
        data.encodes_var_bin(vbv, values_per_frame),
        0 <= i < data.blocks().len(),
    ensures
        count_is_true(vbv.dtype, data.blocks()[i], data.metadata@[i]),
{
    let values = present(vbv.rows());
    let per_frame = frame_capacity(values_per_frame, values.len(), 1);
    let held = frame_parts(values, per_frame, i);
    vbv.lemma_present_lens();
    lemma_frame_is_filled(values, per_frame, i);
    assert(frame_parts(all_prefixed(values), per_frame, i) =~= all_prefixed(held));
    assert(frame_holds(data.blocks()[i], data.metadata@[i], all_prefixed(held)));
    law_stream_roundtrip(held);
}

/// A frame holds one part at least, and its parts are some of the whole.
proof fn lemma_frame_is_filled(parts: Seq<Seq<u8>>, per_frame: nat, i: int)
    requires
        parts.len() > 0 ==> per_frame > 0,
        0 <= i < frame_count(parts.len(), per_frame),
    ensures
        0 <= i * per_frame < frame_end(parts.len(), per_frame, i) <= parts.len(),
{
    lemma_frame_count(parts.len(), per_frame, i);
    assert((i + 1) * per_frame == i * per_frame + per_frame) by (nonlinear_arith);
    assert(i * per_frame >= 0) by (nonlinear_arith)
        requires
            i >= 0,
    ;
}

/// Each value of a run of frames is a value of one of them.
proof fn lemma_run_value_at(
    dtype: DType,
    frames: Seq<Seq<u8>>,
    metas: Seq<Lz4FrameMetadata>,
    from: int,
    to: int,
    x: int,
) -> (place: (int, int))
    requires
        0 <= from <= to,
        forall|i: int|
            from <= i < to ==> count_is_true(dtype, #[trigger] frames[i], metas[i]),
        0 <= x < run_values(dtype, frames, metas, from, to).len(),
    ensures
        ({
            let (i, k) = place;
            let width = value_width(dtype);
            let values = values_in(
                dtype,
                block_decoded(frames[i], metas[i].uncompressed_size as nat)->0,
                frame_values(metas[i], width),
            );
            &&& from <= i < to
            &&& 0 <= k < values.len()
            &&& values_before(metas, width, i) + k == values_before(metas, width, from) + x
            &&& run_values(dtype, frames, metas, from, to)[x] == values[k]
        }),
    decreases to - from,
{
    let width = value_width(dtype);
    let front = run_values(dtype, frames, metas, from, to - 1);
    lemma_run_decodes(dtype, frames, metas, from, to - 1);
    if x < front.len() {
        lemma_run_value_at(dtype, frames, metas, from, to - 1, x)
    } else {
        (to - 1, x - front.len())
    }
}

/// Every row is what its frame holds: where the metadata of the frames tells the true number of
/// values in them, a row is null exactly where the validity says so, and any other row holds the
/// value that stands in the frames behind as many values as there are rows with a value before it.
/// It is the `k`th value of the `i`th frame: the `k`th cell of what the frame decodes to, or the
/// `k`th of the byte strings that stand there behind their lengths.
///
/// It holds of any frames, whoever made them, and of any slice.
pub proof fn law_row_is_frame_value(
    data: Lz4Data,
    dtype: DType,
    validity: ValidityView,
    r: int,
) -> (place: (int, int))
    requires
        data.in_range(),
        validity.covers(data.unsliced_n_rows as nat),
        data.decompressible(dtype, validity),
        data.outcome(value_width(dtype), validity) is Bytes,
        data.counts_true(dtype, validity),
        0 <= r < data.slice_stop - data.slice_start,
    ensures
        ({
            let (i, k) = place;
            let mask = validity.mask(data.unsliced_n_rows as nat);
            let row = data.rows(dtype, validity)[r];
            let meta = data.metadata@[i];
            &&& !mask[data.slice_start + r] ==> row is None
            &&& mask[data.slice_start + r] ==> {
                &&& 0 <= i < data.blocks().len()
                &&& i < data.metadata@.len()
                &&& 0 <= k
                &&& values_before(data.metadata@, value_width(dtype), i) + k == valid_count(
                    mask,
                    data.slice_start + r,
                )
                &&& block_decoded(
                    data.blocks()[i],
                    meta.uncompressed_size as nat,
                ) matches Some(bytes) && match dtype {
                    DType::Primitive(ptype, _) => {
                        &&& (k + 1) * ptype.width() <= bytes.len()
                        &&& row == Some(bytes.subrange(k * ptype.width(), (k + 1) * ptype.width()))
                    },
                    _ => parse_values(bytes) matches Some(values) && k < values.len() && row
                        == Some(values[k]),
                }
            }
        }),
{
    let width = value_width(dtype);
    let frames = data.blocks();
    let metas = data.metadata@;
    let n = paired_frames(frames.len(), metas.len());
    let all = validity.mask(data.unsliced_n_rows as nat);
    let (first, end) = data.needed(width, validity);
    let low = data.values_to_start(validity);
    let high = data.values_to_stop(validity);
    lemma_needed_ends(metas, width, n, low, high);
    data.lemma_slice_mask(dtype, validity);
    let mask = data.slice_mask(dtype, validity);
    assert(mask[r] == all[data.slice_start + r]);
    if !mask[r] {
        (0, 0)
    } else {
        lemma_run_decodes(dtype, frames, metas, first, end);
        let run = run_values(dtype, frames, metas, first, end);
        let skipped = data.skipped_values(width, validity) as int;
        if dtype !is Primitive && no_row_valid(data.slice_validity(dtype, validity)) {
            if data.slice_validity(dtype, validity) is AllInvalid {
                lemma_valid_count_constant(mask, mask.len() as int, false);
            }
            lemma_valid_count_bounds(mask, 0, r);
            lemma_valid_count_bounds(mask, r + 1, mask.len() as int);
        }
        lemma_slice_within_run(data, dtype, validity, run);
        lemma_rows_of_stored(data, dtype, validity, skipped as nat, run);
        lemma_valid_count_subrange(all, data.slice_start as int, data.slice_stop as int, r);
        lemma_valid_count_bounds(mask, 0, r);
        lemma_valid_count_bounds(mask, r + 1, mask.len() as int);
        let x = low - skipped + valid_count(mask, r);
        let (i, k) = lemma_run_value_at(dtype, frames, metas, first, end, x);
        assert(count_is_true(dtype, frames[i], metas[i]));
        lemma_frame_stores(dtype, frames[i], metas[i]);
        assert(data.rows(dtype, validity)[r] == Some(run[x]));
        if let DType::Primitive(ptype, _) = dtype {
            crate::rows::lemma_cell_bounds(
                k,
                frame_values(metas[i], width) as int,
                ptype.width(),
            );
        }
        (i, k)
    }
}

/// A column whose frames decode, hold as many values as their metadata says, and hold the values of
/// the slice, decompresses without an error: the type is one that is stored and goes with the
/// validity, the numbers on the way fit the machine's integers, and of byte strings there are not
/// more than views can address.
pub proof fn law_true_counts_decompress(data: Lz4Data, dtype: DType, validity: ValidityView)
    requires
        data.in_range(),
        validity.covers(data.unsliced_n_rows as nat),
        validity_agrees(dtype, validity),
        dtype !is Other,
        data.fits(value_width(dtype), validity),
        data.counts_true(dtype, validity),
        data.values_to_stop(validity) <= values_before(
            data.metadata@,
            value_width(dtype),
            paired_frames(data.blocks().len(), data.metadata@.len()),
        ),
        dtype !is Primitive ==> data.needed_size(1, validity) <= 0x3fff_ffff_c000_0000,
    ensures
        data.decompressible(dtype, validity),
        data.outcome(value_width(dtype), validity) is Bytes,
{
    let width = value_width(dtype);
    let frames = data.blocks();
    let metas = data.metadata@;
    let n = paired_frames(frames.len(), metas.len());
    let (first, end) = data.needed(width, validity);
    let low = data.values_to_start(validity);
    let high = data.values_to_stop(validity);
    lemma_needed_ends(metas, width, n, low, high);
    data.lemma_slice_mask(dtype, validity);
    lemma_run_decodes(dtype, frames, metas, first, end);
    let run = run_values(dtype, frames, metas, first, end);
    lemma_values_before_monotone(metas, width, first, end);
    assert(high <= values_before(metas, width, end));
    lemma_rows_of_stored(data, dtype, validity, data.skipped_values(width, validity), run);
    assert forall|i: int| first <= i < end implies crate::codec::decodable(
        #[trigger] frames[i],
        metas[i].uncompressed_size as nat,
    ) by {
        assert(count_is_true(dtype, frames[i], metas[i]));
    }
    if dtype !is Primitive {
        let max = MAX_BUFFER_LEN as nat;
        lemma_run_size(dtype, frames, metas, first, end);
        crate::bytes::lemma_value_start(run, run.len() as int);
        assert(all_prefixed(run).take(run.len() as int) =~= all_prefixed(run));
        crate::views::law_places_fit(run, max);
    }
}

/// A run of frames with true counts stores as many bytes as the metadata says.
proof fn lemma_run_size(
    dtype: DType,
    frames: Seq<Seq<u8>>,
    metas: Seq<Lz4FrameMetadata>,
    from: int,
    to: int,
)
    requires
        0 <= from <= to,
        forall|i: int|
            from <= i < to ==> count_is_true(dtype, #[trigger] frames[i], metas[i]),
    ensures
        stored(dtype, run_values(dtype, frames, metas, from, to)).len()
            == crate::plan::uncompressed_between(metas, from, to),
    decreases to - from,
{
    if from < to {
        lemma_run_size(dtype, frames, metas, from, to - 1);
        assert(count_is_true(dtype, frames[to - 1], metas[to - 1]));
        lemma_frame_stores(dtype, frames[to - 1], metas[to - 1]);
        lemma_stored_add(
            dtype,
            run_values(dtype, frames, metas, from, to - 1),
            values_in(
                dtype,
                block_decoded(frames[to - 1], metas[to - 1].uncompressed_size as nat)->0,
                frame_values(metas[to - 1], value_width(dtype)),
            ),
        );
    } else {
        assert(all_prefixed(Seq::<Seq<u8>>::empty()) =~= Seq::<Seq<u8>>::empty());
    }
}

/// A frame's count is true where the frame decodes to the size that its metadata says, and holds as
/// many cells of the type's width, or as many byte strings, as the metadata says, or, where that is
/// 0, as fit.
pub proof fn law_count_is_true(dtype: DType, frame: Seq<u8>, meta: Lz4FrameMetadata)
    requires
        meta.n_values > 0,
    ensures
        count_is_true(dtype, frame, meta) <==> (block_decoded(
            frame,
            meta.uncompressed_size as nat,
        ) matches Some(bytes) && {
            &&& bytes.len() == meta.uncompressed_size
            &&& match dtype {
                DType::Primitive(ptype, _) => bytes.len() == meta.n_values * ptype.width(),
                _ => parse_values(bytes) matches Some(values) && values.len() == meta.n_values,
            }
        }),
{
}

} // verus!
