//! Splitting the stored values of a column into frames, each compressed on its own.

use crate::buffer::ByteBuffer;
use crate::bytes::concat;
use crate::codec::block_decoded;
use crate::codec::compress_block;
use crate::codec::compressible_len;
use crate::codec::max_compressed_len;
use crate::error::Lz4Error;
use crate::metadata::Lz4FrameMetadata;
use vstd::prelude::*;

verus! {

/// Compressed frames and their metadata.
#[derive(Debug)]
pub struct Frames {
    /// The frames.
    pub frames: Vec<ByteBuffer>,
    /// The metadata of each frame.
    pub frame_metas: Vec<Lz4FrameMetadata>,
}

/// The number of frames for `n` values, of which `per_frame` go into each frame but the last.
pub open spec fn frame_count(n: nat, per_frame: nat) -> nat {
    if n == 0 {
        0
    } else {
        ((n + per_frame - 1) / (per_frame as int)) as nat
    }
}

/// The value behind the last of the `i`th frame.
pub open spec fn frame_end(n: nat, per_frame: nat, i: int) -> int {
    if (i + 1) * per_frame < n {
        (i + 1) * per_frame
    } else {
        n as int
    }
}

/// The stored parts that the `i`th frame holds.
pub open spec fn frame_parts(parts: Seq<Seq<u8>>, per_frame: nat, i: int) -> Seq<Seq<u8>> {
    parts.subrange(i * per_frame, frame_end(parts.len(), per_frame, i))
}

/// Whether a frame and its metadata stand for these parts, one behind the other.
pub open spec fn frame_holds(
    frame: Seq<u8>,
    meta: Lz4FrameMetadata,
    parts: Seq<Seq<u8>>,
) -> bool {
    &&& meta.n_values == parts.len()
    &&& meta.uncompressed_size == concat(parts).len()
    &&& frame.len() <= max_compressed_len(concat(parts).len())
    &&& block_decoded(frame, concat(parts).len()) == Some(concat(parts))
}

/// Whether frames and their metadata stand for these parts, `per_frame` in each frame but the last.
pub open spec fn frames_hold(
    frames: Seq<Seq<u8>>,
    metas: Seq<Lz4FrameMetadata>,
    parts: Seq<Seq<u8>>,
    per_frame: nat,
) -> bool {
    &&& parts.len() > 0 ==> per_frame > 0
    &&& frames.len() == frame_count(parts.len(), per_frame)
    &&& metas.len() == frames.len()
    &&& forall|i: int|
        0 <= i < frames.len() ==> frame_holds(
            #[trigger] frames[i],
            metas[i],
            frame_parts(parts, per_frame, i),
        )
}

/// The number of values in each frame but the last: as many as asked for, or all of them where
/// nothing is asked for, rounded up to a multiple of `unit`, and no more than there are.
pub open spec fn frame_capacity(values_per_frame: nat, n: nat, unit: nat) -> nat {
    let wanted = if values_per_frame > 0 {
        values_per_frame
    } else {
        n
    };
    let rounded = (wanted + unit - 1) / (unit as int) * unit;
    if rounded < n {
        rounded as nat
    } else {
        n
    }
}

/// The number of values in each frame but the last.
pub fn values_in_frame(values_per_frame: usize, n_values: usize, unit: usize) -> (per_frame: usize)
    requires
        unit > 0,
    ensures
        per_frame == frame_capacity(values_per_frame as nat, n_values as nat, unit as nat),
        per_frame <= n_values,
        n_values > 0 ==> per_frame > 0,
        per_frame < n_values ==> per_frame as nat % unit as nat == 0,
{
    let wanted: usize = if values_per_frame > 0 {
        values_per_frame
    } else {
        n_values
    };
    let rest: usize = wanted % unit;
    let missing: usize = if rest == 0 {
        0
    } else {
        unit - rest
    };
    proof {
        lemma_round_up(wanted as int, unit as int);
    }
    if wanted >= n_values || missing >= n_values - wanted {
        n_values
    } else {
        wanted + missing
    }
}

/// A frame's capacity is a multiple of the unit, unless one frame holds all values.
pub proof fn lemma_frame_capacity(values_per_frame: nat, n: nat, unit: nat)
    requires
        unit > 0,
    ensures
        frame_capacity(values_per_frame, n, unit) <= n,
        n > 0 ==> frame_capacity(values_per_frame, n, unit) > 0,
        frame_capacity(values_per_frame, n, unit) < n ==> frame_capacity(values_per_frame, n, unit)
            % unit == 0,
{
    lemma_round_up(
        if values_per_frame > 0 {
            values_per_frame as int
        } else {
            n as int
        },
        unit as int,
    );
}

/// Rounding up to a multiple.
proof fn lemma_round_up(x: int, unit: int)
    requires
        x >= 0,
        unit > 0,
    ensures
        (x + unit - 1) / unit * unit == if x % unit == 0 {
            x
        } else {
            x + (unit - x % unit)
        },
        ((x + unit - 1) / unit * unit) % unit == 0,
{
    let q = x / unit;
    let r = x % unit;
    vstd::arithmetic::div_mod::lemma_fundamental_div_mod(x, unit);
    vstd::arithmetic::div_mod::lemma_mod_bound(x, unit);
    assert(unit * q == q * unit) by (nonlinear_arith);
    assert((q + 1) * unit == q * unit + unit) by (nonlinear_arith);
    if r == 0 {
        vstd::arithmetic::div_mod::lemma_fundamental_div_mod_converse(
            x + unit - 1,
            unit,
            q,
            unit - 1,
        );
    } else {
        vstd::arithmetic::div_mod::lemma_fundamental_div_mod_converse(
            x + unit - 1,
            unit,
            q + 1,
            r - 1,
        );
    }
    vstd::arithmetic::div_mod::lemma_mod_multiples_basic((x + unit - 1) / unit, unit);
}

/// The first value of each frame.
pub fn frame_starts(n_values: usize, per_frame: usize) -> (starts: Vec<usize>)
    requires
        n_values > 0 ==> per_frame > 0,
    ensures
        starts@.len() == frame_count(n_values as nat, per_frame as nat),
        forall|i: int| 0 <= i < starts@.len() ==> #[trigger] starts@[i] == i * per_frame,
        forall|i: int| 0 <= i < starts@.len() ==> #[trigger] starts@[i] < n_values,
{
    let mut starts: Vec<usize> = Vec::new();
    if n_values == 0 {
        return starts;
    }
    let mut start: usize = 0;
    let ghost count = frame_count(n_values as nat, per_frame as nat) as int;
    proof {
        lemma_frame_count(n_values as nat, per_frame as nat, 0);
    }
    loop
        invariant_except_break
            starts@.len() < count,
            start == starts@.len() * per_frame,
        invariant
            n_values > 0,
            per_frame > 0,
            count == frame_count(n_values as nat, per_frame as nat),
            start < n_values,
            forall|i: int| 0 <= i < starts@.len() ==> #[trigger] starts@[i] == i * per_frame,
            forall|i: int| 0 <= i < starts@.len() ==> #[trigger] starts@[i] < n_values,
        ensures
            starts@.len() == count,
        decreases n_values - start,
    {
        let ghost k = starts@.len() as int;
        starts.push(start);
        proof {
            lemma_frame_count(n_values as nat, per_frame as nat, k);
            lemma_frame_count(n_values as nat, per_frame as nat, k + 1);
            assert((k + 1) * per_frame == k * per_frame + per_frame) by (nonlinear_arith);
        }
        if per_frame >= n_values - start {
            break;
        }
        start += per_frame;
    }
    starts
}

/// A frame begins before the end of the values exactly where there is a frame of that number.
pub proof fn lemma_frame_count(n: nat, per_frame: nat, i: int)
    requires
        per_frame > 0,
        i >= 0,
    ensures
        i < frame_count(n, per_frame) <==> i * per_frame < n,
{
    if n == 0 {
        assert(i * per_frame >= 0) by (nonlinear_arith)
            requires
                i >= 0,
        ;
    } else {
        let d = per_frame as int;
        let x = n + d - 1;
        let q = x / d;
        vstd::arithmetic::div_mod::lemma_fundamental_div_mod(x, d);
        vstd::arithmetic::div_mod::lemma_mod_bound(x, d);
        let r = x % d;
        if i < q {
            assert(i * d + d <= d * q) by (nonlinear_arith)
                requires
                    i + 1 <= q,
                    d > 0,
            ;
        } else {
            assert(d * q <= i * d) by (nonlinear_arith)
                requires
                    q <= i,
                    d > 0,
            ;
        }
    }
}

/// Compresses the bytes between two frame starts in a row, and behind the last, each as a frame of
/// its own.
///
/// A frame counts `values_per_frame` values, or those that are left of `n_values`, which may be
/// none.
pub fn compress_values(
    value_bytes: &ByteBuffer,
    frame_byte_starts: &Vec<usize>,
    values_per_frame: usize,
    n_values: usize,
) -> (compressed: Result<Frames, Lz4Error>)
    requires
        compressible_len(value_bytes@.len()),
        forall|i: int, j: int|
            0 <= i <= j < frame_byte_starts@.len() ==> #[trigger] frame_byte_starts@[i]
                <= #[trigger] frame_byte_starts@[j] <= value_bytes@.len(),
        frame_byte_starts@.len() > 0 ==> (frame_byte_starts@.len() - 1) * values_per_frame
            <= n_values,
    ensures
        compressed matches Ok(f) && {
            &&& f.frames@.len() == frame_byte_starts@.len()
            &&& f.frame_metas@.len() == frame_byte_starts@.len()
            &&& forall|i: int|
                0 <= i < frame_byte_starts@.len() ==> {
                    let bytes = frame_bytes(value_bytes@, frame_byte_starts@, i);
                    let meta = #[trigger] f.frame_metas@[i];
                    &&& meta.uncompressed_size == bytes.len()
                    &&& meta.n_values == frame_end(
                        n_values as nat,
                        values_per_frame as nat,
                        i,
                    ) - i * values_per_frame
                    &&& meta.n_values <= values_per_frame
                    &&& i * values_per_frame + meta.n_values <= n_values
                    &&& meta.n_values == values_per_frame || i * values_per_frame + meta.n_values
                        == n_values
                    &&& f.frames@[i]@.len() <= max_compressed_len(bytes.len())
                    &&& block_decoded(f.frames@[i]@, bytes.len()) == Some(bytes)
                }
        },
{
    let n_frames: usize = frame_byte_starts.len();
    let mut frame_metas: Vec<Lz4FrameMetadata> = Vec::new();
    let mut frames: Vec<ByteBuffer> = Vec::new();
    let ghost all = value_bytes@;
    let ghost starts = frame_byte_starts@;
    let mut i: usize = 0;
    while i < n_frames
        invariant
            all == value_bytes@,
            starts == frame_byte_starts@,
            n_frames == starts.len(),
            compressible_len(all.len()),
            forall|a: int, b: int|
                0 <= a <= b < starts.len() ==> #[trigger] starts[a] <= #[trigger] starts[b]
                    <= all.len(),
            n_frames > 0 ==> (n_frames - 1) * values_per_frame <= n_values,
            i <= n_frames,
            frames@.len() == i,
            frame_metas@.len() == i,
            forall|k: int|
                0 <= k < i ==> {
                    let bytes = frame_bytes(all, starts, k);
                    let meta = #[trigger] frame_metas@[k];
                    &&& meta.uncompressed_size == bytes.len()
                    &&& meta.n_values == frame_end(
                        n_values as nat,
                        values_per_frame as nat,
                        k,
                    ) - k * values_per_frame
                    &&& meta.n_values <= values_per_frame
                    &&& k * values_per_frame + meta.n_values <= n_values
                    &&& meta.n_values == values_per_frame || k * values_per_frame + meta.n_values
                        == n_values
                    &&& frames@[k]@.len() <= max_compressed_len(bytes.len())
                    &&& block_decoded(frames@[k]@, bytes.len()) == Some(bytes)
                },
        decreases n_frames - i,
    {
        let frame_byte_end: usize = if i + 1 < n_frames {
            frame_byte_starts[i + 1]
        } else {
            value_bytes.len()
        };
        assert(starts[i as int] <= all.len());
        let uncompressed: ByteBuffer = value_bytes.slice(frame_byte_starts[i], frame_byte_end);
        assert(uncompressed@ == frame_bytes(all, starts, i as int));
        let compressed: Vec<u8> = match compress_block(uncompressed.as_slice()) {
            Ok(block) => block,
            Err(_) => {
                return Err(Lz4Error::Compress);
            },
        };
        proof {
            assert((i + 1) * values_per_frame == i * values_per_frame + values_per_frame)
                by (nonlinear_arith);
            assert(0 <= i * values_per_frame <= (n_frames - 1) * values_per_frame)
                by (nonlinear_arith)
                requires
                    i <= n_frames - 1,
            ;
        }
        let rest: usize = n_values - i * values_per_frame;
        let frame_values: usize = if values_per_frame < rest {
            values_per_frame
        } else {
            rest
        };
        frame_metas.push(
            Lz4FrameMetadata {
                uncompressed_size: uncompressed.len() as u64,
                n_values: frame_values as u64,
            },
        );
        frames.push(ByteBuffer::new(compressed));
        i += 1;
    }
    Ok(Frames { frames, frame_metas })
}

/// The bytes between the start of the `i`th frame and that of the next, or the end of all bytes.
pub open spec fn frame_bytes(all: Seq<u8>, starts: Seq<usize>, i: int) -> Seq<u8> {
    all.subrange(
        starts[i] as int,
        if i + 1 < starts.len() {
            starts[i + 1] as int
        } else {
            all.len() as int
        },
    )
}

/// How many values go into each frame but the last. Where none are asked for, or as many as there
/// are, all of them. Else the fewest that are a multiple of `unit` and not less than what is asked
/// for, or all of them where that is no fewer.
pub proof fn law_frame_capacity(values_per_frame: nat, n: nat, unit: nat, m: int)
    requires
        unit > 0,
    ensures
        ({
            let capacity = frame_capacity(values_per_frame, n, unit);
            &&& capacity <= n
            &&& n > 0 ==> capacity > 0
            &&& values_per_frame == 0 ==> capacity == n
            &&& values_per_frame >= n ==> capacity == n
            &&& 0 < values_per_frame && capacity < n ==> {
                &&& capacity % unit == 0
                &&& values_per_frame <= capacity < values_per_frame + unit
            }
            &&& 0 < values_per_frame <= m * unit && capacity == n ==> n <= m * unit
            &&& 0 < values_per_frame < n && unit == 1 ==> capacity == values_per_frame
        }),
{
    let wanted: int = if values_per_frame > 0 {
        values_per_frame as int
    } else {
        n as int
    };
    let u = unit as int;
    lemma_round_up(wanted, u);
    vstd::arithmetic::div_mod::lemma_mod_bound(wanted, u);
    vstd::arithmetic::div_mod::lemma_fundamental_div_mod(wanted, u);
    let q = wanted / u;
    let r = wanted % u;
    let rounded = (wanted + u - 1) / u * u;
    assert(u * q == q * u) by (nonlinear_arith);
    if wanted <= m * u {
        if r == 0 {
            assert(rounded == wanted);
        } else {
            assert(rounded == q * u + u);
            assert(m > q) by (nonlinear_arith)
                requires
                    m * u >= q * u + r,
                    r > 0,
                    u > 0,
            ;
            assert(m * u >= q * u + u) by (nonlinear_arith)
                requires
                    m >= q + 1,
                    u > 0,
            ;
        }
        assert(rounded <= m * u);
    }
    if unit == 1 {
        assert(r == 0);
    }
}

/// Frames hold their parts in order, `per_frame` in each but the last, which holds those that are
/// left, one at least. The metadata of each frame says how many there are, and the frame decodes to
/// them, one behind the other, with room for exactly as many bytes as its metadata says. No parts
/// have no frames.
pub proof fn law_frames_hold_parts(
    frames: Seq<Seq<u8>>,
    metas: Seq<Lz4FrameMetadata>,
    parts: Seq<Seq<u8>>,
    per_frame: nat,
    i: int,
)
    requires
        frames_hold(frames, metas, parts, per_frame),
        0 <= i < frames.len(),
    ensures
        metas.len() == frames.len(),
        parts.len() > 0,
        per_frame > 0,
        i + 1 < frames.len() ==> metas[i].n_values == per_frame,
        i + 1 == frames.len() ==> 1 <= metas[i].n_values <= per_frame && i * per_frame
            + metas[i].n_values == parts.len(),
        0 <= i * per_frame,
        i * per_frame + metas[i].n_values <= parts.len(),
        block_decoded(frames[i], metas[i].uncompressed_size as nat) == Some(
            concat(parts.subrange(i * per_frame, i * per_frame + metas[i].n_values)),
        ),
        concat(parts.subrange(i * per_frame, i * per_frame + metas[i].n_values)).len()
            == metas[i].uncompressed_size,
{
    assert(frame_holds(frames[i], metas[i], frame_parts(parts, per_frame, i)));
    lemma_frame_count(parts.len(), per_frame, i);
    lemma_frame_count(parts.len(), per_frame, i + 1);
    assert((i + 1) * per_frame == i * per_frame + per_frame) by (nonlinear_arith);
    assert(i * per_frame >= 0) by (nonlinear_arith)
        requires
            i >= 0,
    ;
    let end = frame_end(parts.len(), per_frame, i);
    assert(frame_parts(parts, per_frame, i).len() == end - i * per_frame);
    assert(metas[i].n_values == end - i * per_frame);
}

/// There are no frames exactly where there are no parts.
pub proof fn law_no_parts_no_frames(
    frames: Seq<Seq<u8>>,
    metas: Seq<Lz4FrameMetadata>,
    parts: Seq<Seq<u8>>,
    per_frame: nat,
)
    requires
        frames_hold(frames, metas, parts, per_frame),
    ensures
        frames.len() == 0 <==> parts.len() == 0,
        metas.len() == frames.len(),
{
    if parts.len() > 0 {
        lemma_frame_count(parts.len(), per_frame, 0);
        assert(0 * per_frame == 0) by (nonlinear_arith);
    }
}

/// The bytes of frames are all bytes from the first start on, cut at the starts: none lost and none
/// twice.
pub proof fn law_frame_bytes(all: Seq<u8>, starts: Seq<usize>, i: int)
    requires
        0 <= i < starts.len(),
        starts[i] <= all.len(),
        i + 1 < starts.len() ==> starts[i] <= starts[i + 1] <= all.len(),
    ensures
        i + 1 < starts.len() ==> all.skip(starts[i] as int) == frame_bytes(all, starts, i)
            + all.skip(starts[i + 1] as int),
        i + 1 == starts.len() ==> all.skip(starts[i] as int) == frame_bytes(all, starts, i),
{
    if i + 1 < starts.len() {
        assert(all.skip(starts[i] as int) =~= frame_bytes(all, starts, i) + all.skip(
            starts[i + 1] as int,
        ));
    } else {
        assert(all.skip(starts[i] as int) =~= frame_bytes(all, starts, i));
    }
}

} // verus!
