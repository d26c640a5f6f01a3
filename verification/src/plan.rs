//! Which frames a slice needs, and what they decode to.

use crate::buffer::buffer_bytes;
use crate::buffer::ByteBuffer;
use crate::codec::block_decoded;
use crate::codec::check_lengths;
use crate::codec::decodable;
use crate::codec::lengths_fit;
use crate::codec::decompress_block_at;
use crate::error::Lz4Error;
use crate::metadata::Lz4FrameMetadata;
use vstd::prelude::*;

verus! {

/// The frames that a slice needs.
#[derive(Clone, Copy, Debug)]
pub struct FramePlan {
    /// The first frame of those.
    pub first: usize,
    /// The frame behind the last of those.
    pub end: usize,
    /// The sum of their uncompressed sizes.
    pub total_uncompressed: usize,
    /// The number of values in the frames before the first of those.
    pub n_skipped_values: usize,
}

/// The number of values in a frame; where the metadata does not say, as many as fit.
pub open spec fn frame_values(meta: Lz4FrameMetadata, width: nat) -> nat {
    if meta.n_values == 0 {
        meta.uncompressed_size as nat / width
    } else {
        meta.n_values as nat
    }
}

/// The number of values in the first `i` frames.
pub open spec fn values_before(metas: Seq<Lz4FrameMetadata>, width: nat, i: int) -> nat
    decreases i,
{
    if i <= 0 {
        0
    } else {
        values_before(metas, width, i - 1) + frame_values(metas[i - 1], width)
    }
}

/// The uncompressed size of the frames `from..to`.
pub open spec fn uncompressed_between(metas: Seq<Lz4FrameMetadata>, from: int, to: int) -> nat
    decreases to - from,
{
    if to <= from {
        0
    } else {
        uncompressed_between(metas, from, to - 1) + metas[to - 1].uncompressed_size as nat
    }
}

/// The number of frames that have metadata, in step with it.
pub open spec fn paired_frames(n_frames: nat, n_metas: nat) -> int {
    if n_frames <= n_metas {
        n_frames as int
    } else {
        n_metas as int
    }
}

/// The first frame, not before `i`, that holds a value at or behind the value index `start`, or
/// does not begin before `stop`.
pub open spec fn first_needed(
    metas: Seq<Lz4FrameMetadata>,
    width: nat,
    n: int,
    start: nat,
    stop: nat,
    i: int,
) -> int
    decreases n - i,
{
    if i < n && values_before(metas, width, i) < stop && values_before(metas, width, i + 1)
        <= start {
        first_needed(metas, width, n, start, stop, i + 1)
    } else {
        i
    }
}

/// The first frame, not before `i`, that does not begin before the value index `stop`.
pub open spec fn end_needed(
    metas: Seq<Lz4FrameMetadata>,
    width: nat,
    n: int,
    stop: nat,
    i: int,
) -> int
    decreases n - i,
{
    if i < n && values_before(metas, width, i) < stop {
        end_needed(metas, width, n, stop, i + 1)
    } else {
        i
    }
}

/// The frames `first..end` that the values `start..stop` need, of `n` frames.
pub open spec fn needed_frames(
    metas: Seq<Lz4FrameMetadata>,
    width: nat,
    n: int,
    start: nat,
    stop: nat,
) -> (int, int) {
    let first = first_needed(metas, width, n, start, stop, 0);
    (first, end_needed(metas, width, n, stop, first))
}

/// Whether every number that planning goes through fits the machine's integers.
pub open spec fn plan_fits(
    metas: Seq<Lz4FrameMetadata>,
    width: nat,
    n: int,
    start: nat,
    stop: nat,
) -> bool {
    let (first, end) = needed_frames(metas, width, n, start, stop);
    &&& forall|i: int|
        0 <= i < end ==> {
            &&& (#[trigger] metas[i]).uncompressed_size <= usize::MAX
            &&& metas[i].n_values <= usize::MAX
        }
    &&& values_before(metas, width, end) <= usize::MAX
    &&& uncompressed_between(metas, first, end) <= usize::MAX
}

/// What a run of frames decodes to.
pub enum FrameOutcome {
    /// Every frame decoded to the size that its metadata says.
    Bytes(Seq<u8>),
    /// The first frame that did not is one that the codec reports as malformed.
    Malformed,
    /// The first frame that did not decoded to another size.
    WrongSize,
}

/// What the frames `from..to` decode to, one behind the other.
pub open spec fn decode_frames(
    frames: Seq<Seq<u8>>,
    metas: Seq<Lz4FrameMetadata>,
    from: int,
    to: int,
) -> FrameOutcome
    decreases to - from,
{
    if to <= from {
        FrameOutcome::Bytes(Seq::empty())
    } else {
        let size = metas[to - 1].uncompressed_size as nat;
        match decode_frames(frames, metas, from, to - 1) {
            FrameOutcome::Bytes(bytes) => match block_decoded(frames[to - 1], size) {
                None => FrameOutcome::Malformed,
                Some(decoded) => if decoded.len() == size {
                    FrameOutcome::Bytes(bytes + decoded)
                } else {
                    FrameOutcome::WrongSize
                },
            },
            failed => failed,
        }
    }
}

/// Selects the frames that the values `start..stop` need, without decompressing any, or returns
/// `None` where a size or a count does not fit the machine's integers.
pub fn plan_frames(
    frames: &Vec<ByteBuffer>,
    metas: &Vec<Lz4FrameMetadata>,
    byte_width: usize,
    slice_value_idx_start: usize,
    slice_value_idx_stop: usize,
) -> (plan: Option<FramePlan>)
    requires
        byte_width > 0,
    ensures
        ({
            let n = paired_frames(frames@.len(), metas@.len());
            let start = slice_value_idx_start as nat;
            let stop = slice_value_idx_stop as nat;
            let (first, end) = needed_frames(metas@, byte_width as nat, n, start, stop);
            &&& plan is Some <==> plan_fits(metas@, byte_width as nat, n, start, stop)
            &&& plan matches Some(p) ==> {
                &&& p.first == first
                &&& p.end == end
                &&& first <= end <= n
                &&& p.total_uncompressed == uncompressed_between(metas@, first, end)
                &&& p.n_skipped_values == values_before(metas@, byte_width as nat, first)
                &&& p.n_skipped_values <= start
            }
        }),
{
    let n: usize = if frames.len() <= metas.len() {
        frames.len()
    } else {
        metas.len()
    };
    let ghost width = byte_width as nat;
    let ghost start = slice_value_idx_start as nat;
    let ghost stop = slice_value_idx_stop as nat;
    let ghost (lo, hi) = needed_frames(metas@, width, n as int, start, stop);
    let mut first: usize = 0;
    let mut i: usize = 0;
    let mut value_idx_start: usize = 0;
    let mut total_uncompressed: usize = 0;
    let mut n_skipped_values: usize = 0;
    proof {
        lemma_needed_monotone(metas@, width, n as int, start, stop, 0);
    }
    while i < n && value_idx_start < slice_value_idx_stop
        invariant
            byte_width > 0,
            width == byte_width,
            start == slice_value_idx_start,
            stop == slice_value_idx_stop,
            n == paired_frames(frames@.len(), metas@.len()),
            (lo, hi) == needed_frames(metas@, width, n as int, start, stop),
            i <= n,
            first <= i,
            value_idx_start == values_before(metas@, width, i as int),
            lo <= hi <= n,
            first_needed(metas@, width, n as int, start, stop, first as int) == lo,
            first == i || end_needed(metas@, width, n as int, stop, i as int) == hi,
            first < i ==> first == lo && values_before(metas@, width, first + 1) > start,
            n_skipped_values == values_before(metas@, width, first as int),
            n_skipped_values <= slice_value_idx_start,
            total_uncompressed == uncompressed_between(metas@, first as int, i as int),
            forall|k: int|
                0 <= k < i ==> {
                    &&& (#[trigger] metas@[k]).uncompressed_size <= usize::MAX
                    &&& metas@[k].n_values <= usize::MAX
                },
        decreases n - i,
    {
        let meta: Lz4FrameMetadata = metas[i];
        proof {
            lemma_needed_monotone(metas@, width, n as int, start, stop, i as int);
            lemma_needed_monotone(metas@, width, n as int, start, stop, i + 1);
            assert(i < hi);
            lemma_values_before_monotone(metas@, width, first + 1, i + 1);
            lemma_values_before_monotone(metas@, width, i + 1, hi);
        }
        if meta.uncompressed_size > usize::MAX as u64 || meta.n_values > usize::MAX as u64 {
            assert(metas@[i as int] == meta);
            return None;
        }
        let frame_uncompressed_size: usize = meta.uncompressed_size as usize;
        let frame_n_values: usize = if meta.n_values == 0 {
            frame_uncompressed_size / byte_width
        } else {
            meta.n_values as usize
        };
        if frame_n_values > usize::MAX - value_idx_start {
            return None;
        }
        let value_idx_stop: usize = value_idx_start + frame_n_values;
        if value_idx_stop > slice_value_idx_start {
            if frame_uncompressed_size > usize::MAX - total_uncompressed {
                proof {
                    lemma_uncompressed_monotone(metas@, lo, i + 1, hi);
                }
                return None;
            }
            total_uncompressed += frame_uncompressed_size;
        } else {
            proof {
                assert(first == i);
            }
            n_skipped_values += frame_n_values;
            first = i + 1;
        }
        value_idx_start = value_idx_stop;
        i += 1;
    }
    Some(FramePlan { first, end: i, total_uncompressed, n_skipped_values })
}

/// Whether the lengths in the planned frames fit the machine's integers.
pub fn check_planned_lengths(
    frames: &Vec<ByteBuffer>,
    metas: &Vec<Lz4FrameMetadata>,
    plan: &FramePlan,
) -> (fit: bool)
    requires
        plan.first <= plan.end <= paired_frames(frames@.len(), metas@.len()),
        forall|i: int|
            plan.first <= i < plan.end ==> (#[trigger] metas@[i]).uncompressed_size <= usize::MAX,
    ensures
        fit == forall|i: int|
            plan.first <= i < plan.end ==> lengths_fit(
                #[trigger] buffer_bytes(frames@)[i],
                metas@[i].uncompressed_size as nat,
            ),
{
    let ghost blocks = buffer_bytes(frames@);
    let mut i: usize = plan.first;
    while i < plan.end
        invariant
            blocks == buffer_bytes(frames@),
            plan.first <= i <= plan.end <= paired_frames(frames@.len(), metas@.len()),
            forall|k: int|
                plan.first <= k < plan.end ==> (#[trigger] metas@[k]).uncompressed_size
                    <= usize::MAX,
            forall|k: int|
                plan.first <= k < i ==> lengths_fit(
                    #[trigger] blocks[k],
                    metas@[k].uncompressed_size as nat,
                ),
        decreases plan.end - i,
    {
        assert(blocks[i as int] == frames@[i as int]@);
        assert(metas@[i as int].uncompressed_size <= usize::MAX);
        if !check_lengths(frames[i].as_slice(), metas[i].uncompressed_size as usize) {
            return false;
        }
        i += 1;
    }
    true
}

/// Decompresses the planned frames into `out`, one behind the other, in place of what it held.
///
/// Returns `None` where a frame does not have the size that its metadata says. Then, and after an
/// error, the bytes in `out` mean nothing.
pub fn fill_frames(
    frames: &Vec<ByteBuffer>,
    metas: &Vec<Lz4FrameMetadata>,
    plan: &FramePlan,
    out: &mut Vec<u8>,
) -> (filled: Option<Result<(), Lz4Error>>)
    requires
        plan.first <= plan.end <= paired_frames(frames@.len(), metas@.len()),
        plan.total_uncompressed == uncompressed_between(metas@, plan.first as int, plan.end as int),
        forall|i: int|
            plan.first <= i < plan.end ==> decodable(
                #[trigger] buffer_bytes(frames@)[i],
                metas@[i].uncompressed_size as nat,
            ),
    ensures
        final(out)@.len() == plan.total_uncompressed,
        match decode_frames(
            buffer_bytes(frames@),
            metas@,
            plan.first as int,
            plan.end as int,
        ) {
            FrameOutcome::Bytes(bytes) => filled == Some(Ok::<(), Lz4Error>(())) && final(out)@
                == bytes,
            FrameOutcome::Malformed => filled == Some(Err::<(), Lz4Error>(Lz4Error::Decompress)),
            FrameOutcome::WrongSize => filled is None,
        },
{
    let ghost blocks = buffer_bytes(frames@);
    let ghost first = plan.first as int;
    let ghost end = plan.end as int;
    out.clear();
    out.resize(plan.total_uncompressed, 0);
    let mut uncompressed_start: usize = 0;
    let mut i: usize = plan.first;
    assert(out@.take(0) =~= Seq::<u8>::empty());
    while i < plan.end
        invariant
            blocks == buffer_bytes(frames@),
            first == plan.first,
            end == plan.end,
            first <= i <= end <= paired_frames(frames@.len(), metas@.len()),
            plan.total_uncompressed == uncompressed_between(metas@, first, end),
            forall|k: int|
                first <= k < end ==> decodable(
                    #[trigger] blocks[k],
                    metas@[k].uncompressed_size as nat,
                ),
            out@.len() == plan.total_uncompressed,
            uncompressed_start == uncompressed_between(metas@, first, i as int),
            uncompressed_start <= plan.total_uncompressed,
            decode_frames(blocks, metas@, first, i as int) == FrameOutcome::Bytes(
                out@.take(uncompressed_start as int),
            ),
        decreases end - i,
    {
        proof {
            lemma_uncompressed_monotone(metas@, first, i + 1, end);
            assert(blocks[i as int] == frames@[i as int]@);
        }
        let frame_uncompressed_size: usize = metas[i].uncompressed_size as usize;
        let uncompressed_end: usize = uncompressed_start + frame_uncompressed_size;
        let ghost before = out@;
        let written: usize = match decompress_block_at(
            frames[i].as_slice(),
            out,
            uncompressed_start,
            uncompressed_end,
        ) {
            Ok(n) => n,
            Err(_) => {
                proof {
                    lemma_decode_failure(blocks, metas@, first, i + 1, end);
                }
                return Some(Err(Lz4Error::Decompress));
            },
        };
        if written != frame_uncompressed_size {
            proof {
                lemma_decode_failure(blocks, metas@, first, i + 1, end);
            }
            return None;
        }
        assert(out@.take(uncompressed_end as int) =~= before.take(uncompressed_start as int)
            + out@.subrange(uncompressed_start as int, uncompressed_end as int));
        uncompressed_start = uncompressed_end;
        i += 1;
    }
    assert(out@.take(uncompressed_start as int) =~= out@);
    Some(Ok(()))
}

/// The frames behind one that fails do not change the outcome.
proof fn lemma_decode_failure(
    frames: Seq<Seq<u8>>,
    metas: Seq<Lz4FrameMetadata>,
    from: int,
    i: int,
    to: int,
)
    requires
        i <= to,
        decode_frames(frames, metas, from, i) !is Bytes,
    ensures
        decode_frames(frames, metas, from, to) == decode_frames(frames, metas, from, i),
    decreases to - i,
{
    if i < to {
        lemma_decode_failure(frames, metas, from, i, to - 1);
    }
}

/// The frames that a slice needs are the ones that hold one of its values, or surround the place
/// of an empty slice: they begin before the slice ends and end behind its start. No other frame is
/// decompressed.
pub proof fn law_needed_frames_overlap_slice(
    metas: Seq<Lz4FrameMetadata>,
    width: nat,
    n: int,
    start: nat,
    stop: nat,
    i: int,
)
    requires
        0 <= i < n <= metas.len(),
    ensures
        ({
            let (first, end) = needed_frames(metas, width, n, start, stop);
            first <= i < end <==> {
                &&& values_before(metas, width, i) < stop
                &&& start < values_before(metas, width, i + 1)
            }
        }),
{
    let (first, end) = needed_frames(metas, width, n, start, stop);
    lemma_needed_monotone(metas, width, n, start, stop, 0);
    lemma_first_needed(metas, width, n, start, stop, 0, i);
    if first <= i {
        lemma_end_needed(metas, width, n, stop, first, i);
        lemma_values_before_monotone(metas, width, first, i);
        lemma_values_before_monotone(metas, width, first + 1, i + 1);
    }
}

/// The needed frames are a run of frames; the ones before it end at or before the slice's start,
/// and the run reaches the slice's end, or the last frame.
pub proof fn lemma_needed_ends(
    metas: Seq<Lz4FrameMetadata>,
    width: nat,
    n: int,
    start: nat,
    stop: nat,
)
    requires
        0 <= n,
    ensures
        ({
            let (first, end) = needed_frames(metas, width, n, start, stop);
            &&& 0 <= first <= end <= n
            &&& values_before(metas, width, first) <= start
            &&& first > 0 ==> values_before(metas, width, first - 1) < stop
            &&& end < n ==> stop <= values_before(metas, width, end)
        }),
{
    let (first, end) = needed_frames(metas, width, n, start, stop);
    lemma_needed_monotone(metas, width, n, start, stop, 0);
    if first > 0 {
        lemma_first_needed(metas, width, n, start, stop, 0, first - 1);
    }
    if end < n {
        lemma_end_needed(metas, width, n, stop, first, end);
    }
}

/// The frames before the first needed one end at or before the slice's start, and the first needed
/// one, if it begins before the slice ends, ends behind it.
proof fn lemma_first_needed(
    metas: Seq<Lz4FrameMetadata>,
    width: nat,
    n: int,
    start: nat,
    stop: nat,
    from: int,
    i: int,
)
    requires
        0 <= from <= n,
    ensures
        ({
            let first = first_needed(metas, width, n, start, stop, from);
            &&& from <= i < first ==> values_before(metas, width, i) < stop && values_before(
                metas,
                width,
                i + 1,
            ) <= start
            &&& first < n && values_before(metas, width, first) < stop ==> start < values_before(
                metas,
                width,
                first + 1,
            )
        }),
    decreases n - from,
{
    if from < n {
        lemma_first_needed(metas, width, n, start, stop, from + 1, i);
    }
}

/// The frames before the end of the needed ones begin before the slice ends, and no later one does.
proof fn lemma_end_needed(
    metas: Seq<Lz4FrameMetadata>,
    width: nat,
    n: int,
    stop: nat,
    from: int,
    i: int,
)
    requires
        0 <= from <= i < n,
    ensures
        i < end_needed(metas, width, n, stop, from) <==> values_before(metas, width, i) < stop,
    decreases n - from,
{
    lemma_values_before_monotone(metas, width, from, i);
    lemma_needed_monotone(metas, width, n, 0, stop, from + 1);
    if from < i {
        lemma_end_needed(metas, width, n, stop, from + 1, i);
    }
}

/// More frames hold more values.
pub proof fn lemma_values_before_monotone(
    metas: Seq<Lz4FrameMetadata>,
    width: nat,
    i: int,
    j: int,
)
    requires
        i <= j,
    ensures
        values_before(metas, width, i) <= values_before(metas, width, j),
    decreases j - i,
{
    if i < j {
        lemma_values_before_monotone(metas, width, i, j - 1);
    }
}

/// More frames are larger.
pub proof fn lemma_uncompressed_monotone(metas: Seq<Lz4FrameMetadata>, from: int, i: int, j: int)
    requires
        i <= j,
    ensures
        uncompressed_between(metas, from, i) <= uncompressed_between(metas, from, j),
    decreases j - i,
{
    if i < j {
        lemma_uncompressed_monotone(metas, from, i, j - 1);
    }
}

/// A run of frames within a run is no larger.
pub proof fn lemma_uncompressed_run(
    metas: Seq<Lz4FrameMetadata>,
    from: int,
    i: int,
    j: int,
    to: int,
)
    requires
        from <= i <= j <= to,
    ensures
        uncompressed_between(metas, i, j) <= uncompressed_between(metas, from, to),
    decreases to - i,
{
    if j < to {
        lemma_uncompressed_run(metas, from, i, j, to - 1);
    } else if i < j {
        lemma_uncompressed_run(metas, from, i, j - 1, to - 1);
    }
}

/// Where the searches for the first and the last frame end.
proof fn lemma_needed_monotone(
    metas: Seq<Lz4FrameMetadata>,
    width: nat,
    n: int,
    start: nat,
    stop: nat,
    i: int,
)
    requires
        0 <= i <= n,
    ensures
        i <= first_needed(metas, width, n, start, stop, i) <= n,
        i <= end_needed(metas, width, n, stop, i) <= n,
        first_needed(metas, width, n, start, stop, i) <= end_needed(
            metas,
            width,
            n,
            stop,
            first_needed(metas, width, n, start, stop, i),
        ) <= n,
    decreases n - i,
{
    if i < n {
        lemma_needed_monotone(metas, width, n, start, stop, i + 1);
    }
}

/// The number of values in the frames before another grows frame by frame: by the number that the
/// frame's metadata says, or, where that is 0, by as many values as fit its uncompressed size.
pub proof fn law_values_before(metas: Seq<Lz4FrameMetadata>, width: nat, i: int)
    requires
        0 <= i < metas.len(),
        width > 0,
    ensures
        values_before(metas, width, 0) == 0,
        metas[i].n_values > 0 ==> values_before(metas, width, i + 1) == values_before(
            metas,
            width,
            i,
        ) + metas[i].n_values,
        metas[i].n_values == 0 ==> {
            let grown = values_before(metas, width, i + 1) - values_before(metas, width, i);
            grown * width <= metas[i].uncompressed_size < (grown + 1) * width
        },
{
    let size = metas[i].uncompressed_size as int;
    let q = size / (width as int);
    vstd::arithmetic::div_mod::lemma_fundamental_div_mod(size, width as int);
    vstd::arithmetic::div_mod::lemma_mod_bound(size, width as int);
    assert((q + 1) * width == width * q + width) by (nonlinear_arith);
    assert(q * width == width * q) by (nonlinear_arith);
}

/// The uncompressed size of a run of frames is the sum of what their metadata says.
pub proof fn law_uncompressed_between(metas: Seq<Lz4FrameMetadata>, from: int, to: int)
    requires
        0 <= from <= to < metas.len(),
    ensures
        uncompressed_between(metas, from, from) == 0,
        uncompressed_between(metas, from, to + 1) == uncompressed_between(metas, from, to)
            + metas[to].uncompressed_size,
{
}

/// A run of frames decodes frame by frame: of no frames come no bytes, and one frame more adds the
/// bytes that it decodes to, where they are as many as its metadata says. A frame that the codec
/// reports as malformed, or that decodes to another size, fails the run, and what comes behind it
/// changes nothing.
pub proof fn law_frames_decode_one_by_one(
    frames: Seq<Seq<u8>>,
    metas: Seq<Lz4FrameMetadata>,
    from: int,
    to: int,
)
    requires
        0 <= from <= to,
    ensures
        decode_frames(frames, metas, from, from) == FrameOutcome::Bytes(Seq::empty()),
        decode_frames(frames, metas, from, to) !is Bytes ==> decode_frames(
            frames,
            metas,
            from,
            to + 1,
        ) == decode_frames(frames, metas, from, to),
        decode_frames(frames, metas, from, to) matches FrameOutcome::Bytes(before) ==> {
            let size = metas[to].uncompressed_size as nat;
            let after = decode_frames(frames, metas, from, to + 1);
            match block_decoded(frames[to], size) {
                None => after is Malformed,
                Some(bytes) => {
                    &&& bytes.len() == size ==> after == FrameOutcome::Bytes(before + bytes)
                    &&& bytes.len() != size ==> after is WrongSize
                },
            }
        },
{
}

/// Frames and their metadata go in step, as many as there are of both.
pub proof fn law_paired_frames(n_frames: nat, n_metas: nat)
    ensures
        paired_frames(n_frames, n_metas) <= n_frames,
        paired_frames(n_frames, n_metas) <= n_metas,
        paired_frames(n_frames, n_metas) == n_frames || paired_frames(n_frames, n_metas)
            == n_metas,
{
}

/// The frames that a slice needs are found where the sizes and the numbers of values of all frames,
/// one by one and in sum, fit the machine's integers.
pub proof fn law_plan_fits(
    metas: Seq<Lz4FrameMetadata>,
    width: nat,
    n: int,
    start: nat,
    stop: nat,
)
    requires
        0 <= n <= metas.len(),
        uncompressed_between(metas, 0, n) <= usize::MAX,
        values_before(metas, width, n) <= usize::MAX,
        forall|i: int|
            0 <= i < n ==> {
                &&& (#[trigger] metas[i]).uncompressed_size <= usize::MAX
                &&& metas[i].n_values <= usize::MAX
            },
    ensures
        plan_fits(metas, width, n, start, stop),
{
    let (first, end) = needed_frames(metas, width, n, start, stop);
    lemma_needed_ends(metas, width, n, start, stop);
    lemma_values_before_monotone(metas, width, end, n);
    lemma_uncompressed_run(metas, 0, first, end, n);
}

} // verus!
