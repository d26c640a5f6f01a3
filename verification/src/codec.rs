//! The LZ4 block codec, as the `lz4_flex` crate provides it.
//!
//! Everything this crate believes of the codec without proof stands in this module.

use lz4_flex::block::CompressError;
use lz4_flex::block::DecompressError;
use vstd::prelude::*;

verus! {

/// The error of `lz4_flex::block::compress_into`, carried through as an opaque value.
#[verifier::external_type_specification]
#[verifier::external_body]
pub struct ExCompressError(CompressError);

/// The error of `lz4_flex::block::decompress_into`, carried through as an opaque value.
#[verifier::external_type_specification]
#[verifier::external_body]
pub struct ExDecompressError(DecompressError);

/// What `lz4_flex::block::decompress_into` writes when it reads the block `input` into an output
/// of `capacity` bytes, or `None` where it reports an error.
pub uninterp spec fn block_decoded(input: Seq<u8>, capacity: nat) -> Option<Seq<u8>>;

/// The room that the compressor asks for before it compresses `len` bytes.
pub open spec fn max_compressed_len(len: nat) -> nat {
    20 + len * 110 / 100
}

/// Whether the compressor's own size arithmetic stays within the machine's integers for an input
/// of `len` bytes.
pub open spec fn compressible_len(len: nat) -> bool {
    &&& len * 110 <= u64::MAX
    &&& max_compressed_len(len) <= usize::MAX
}

/// The number of bytes 255 in a row right before the `i`th byte of a block.
pub open spec fn full_bytes_before(block: Seq<u8>, i: int) -> nat
    decreases i,
{
    if i <= 0 || block[i - 1] != 255 {
        0
    } else {
        full_bytes_before(block, i - 1) + 1
    }
}

/// Whether the decompressor's own length arithmetic stays within the machine's integers, whatever
/// a block's bytes are taken for, when the output has room for `capacity` bytes.
///
/// A block spells a length as a sum of bytes 255 in a row, a smaller byte, and at most nineteen
/// units that the token adds.
pub open spec fn lengths_fit(block: Seq<u8>, capacity: nat) -> bool {
    &&& block.len() + 18 <= usize::MAX
    &&& forall|i: int|
        0 <= i <= block.len() ==> 255 * #[trigger] full_bytes_before(block, i) + 273 + capacity
            <= usize::MAX
}

/// Whether a block can be handed to the decompressor with room for `capacity` bytes: its lengths
/// fit, or it is known to decode.
pub open spec fn decodable(block: Seq<u8>, capacity: nat) -> bool {
    lengths_fit(block, capacity) || block_decoded(block, capacity) is Some
}

/// `lz4_flex::block::get_maximum_output_size`: a tenth more than the input, and twenty bytes.
pub assume_specification[ lz4_flex::block::get_maximum_output_size ](input_len: usize) -> (size:
    usize)
    requires
        compressible_len(input_len as nat),
    ensures
        size == max_compressed_len(input_len as nat),
;

/// `lz4_flex::block::compress_into`: it fails exactly where the output is smaller than
/// `get_maximum_output_size` asks for, and otherwise writes a block that `decompress_into` turns
/// back into the input when it is given room for just that many bytes.
///
/// Which of the many blocks for an input it writes is not said: the match finder reads words in
/// the machine's own size and byte order.
pub assume_specification[ lz4_flex::block::compress_into ](
    input: &[u8],
    output: &mut [u8],
) -> (written: Result<usize, CompressError>)
    requires
        compressible_len(input@.len()),
    ensures
        final(output)@.len() == old(output)@.len(),
        written is Ok <==> max_compressed_len(input@.len()) <= old(output)@.len(),
        written matches Ok(n) ==> {
            &&& n <= max_compressed_len(input@.len())
            &&& block_decoded(final(output)@.take(n as int), input@.len()) == Some(input@)
        },
;

/// `lz4_flex::block::decompress_into`: on success the first bytes of the output, as many as the
/// returned count, are the decoded block; whether it succeeds, and what it writes there, follows
/// from the block and the size of the output alone. The output's bytes behind that count, and all
/// of them after an error, are left unsaid: the decoder copies in strides that overshoot.
///
/// A block may spell a length that overflows the machine's integers. It is not handed one, unless
/// the block is known to decode, as one that `compress_into` wrote is.
pub assume_specification[ lz4_flex::block::decompress_into ](
    input: &[u8],
    output: &mut [u8],
) -> (written: Result<usize, DecompressError>)
    requires
        decodable(input@, old(output)@.len()),
    ensures
        final(output)@.len() == old(output)@.len(),
        match written {
            Ok(n) => {
                &&& n <= old(output)@.len()
                &&& block_decoded(input@, old(output)@.len()) == Some(
                    final(output)@.take(n as int),
                )
            },
            Err(_) => block_decoded(input@, old(output)@.len()) is None,
        },
;

/// Compresses `input` into a block of its own.
pub(crate) fn compress_block(input: &[u8]) -> (block: Result<Vec<u8>, CompressError>)
    requires
        compressible_len(input@.len()),
    ensures
        block matches Ok(b) && {
            &&& b@.len() <= max_compressed_len(input@.len())
            &&& block_decoded(b@, input@.len()) == Some(input@)
        },
{
    let mut compressed: Vec<u8> = vec![0u8; lz4_flex::block::get_maximum_output_size(input.len())];
    let compressed_len: usize = match lz4_flex::block::compress_into(
        input,
        compressed.as_mut_slice(),
    ) {
        Ok(n) => n,
        Err(e) => {
            return Err(e);
        },
    };
    let ghost full = compressed@;
    compressed.truncate(compressed_len);
    assert(compressed@ == full.take(compressed_len as int));
    Ok(compressed)
}

/// Decodes `block` into `out[start..end]`, and returns how many bytes it wrote there.
pub(crate) fn decompress_block_at(block: &[u8], out: &mut Vec<u8>, start: usize, end: usize) -> (written:
    Result<usize, DecompressError>)
    requires
        start <= end <= old(out)@.len(),
        decodable(block@, (end - start) as nat),
    ensures
        final(out)@.len() == old(out)@.len(),
        final(out)@.take(start as int) == old(out)@.take(start as int),
        match written {
            Ok(n) => {
                &&& n <= end - start
                &&& block_decoded(block@, (end - start) as nat) == Some(
                    final(out)@.subrange(start as int, start + n),
                )
            },
            Err(_) => block_decoded(block@, (end - start) as nat) is None,
        },
{
    let (_head, tail) = out.as_mut_slice().split_at_mut(start);
    let (room, _rest) = tail.split_at_mut(end - start);
    let written = lz4_flex::block::decompress_into(block, room);
    proof {
        if let Ok(n) = written {
            assert(final(out)@.subrange(start as int, start + n) =~= final(room)@.take(n as int));
        }
    }
    written
}

/// A run of bytes 255 is no longer than what stands before its end.
proof fn lemma_full_bytes_bound(block: Seq<u8>, i: int)
    requires
        0 <= i,
    ensures
        full_bytes_before(block, i) <= i,
    decreases i,
{
    if i > 0 {
        lemma_full_bytes_bound(block, i - 1);
    }
}

/// The lengths in a block fit where the block is short beside what a `usize` holds.
pub proof fn law_short_blocks_fit(block: Seq<u8>, capacity: nat)
    requires
        255 * block.len() + 273 + capacity <= usize::MAX,
    ensures
        lengths_fit(block, capacity),
{
    assert forall|i: int| 0 <= i <= block.len() implies 255 * #[trigger] full_bytes_before(block, i)
        + 273 + capacity <= usize::MAX by {
        lemma_full_bytes_bound(block, i);
    }
}

/// Whether the lengths in a block fit the machine's integers.
pub fn check_lengths(block: &[u8], capacity: usize) -> (fit: bool)
    ensures
        fit == lengths_fit(block@, capacity as nat),
{
    let len: usize = block.len();
    proof {
        assert(full_bytes_before(block@, 0) == 0);
    }
    if len > usize::MAX - 18 || capacity > usize::MAX - 273 {
        return false;
    }
    let limit: usize = (usize::MAX - 273 - capacity) / 255;
    if len <= limit {
        proof {
            law_short_blocks_fit(block@, capacity as nat);
        }
        return true;
    }
    let mut run: usize = 0;
    let mut i: usize = 0;
    while i < len
        invariant
            len == block@.len(),
            capacity <= usize::MAX - 273,
            limit == (usize::MAX - 273 - capacity) / 255,
            i <= len,
            run == full_bytes_before(block@, i as int),
            run <= i,
            forall|k: int|
                0 <= k <= i ==> 255 * #[trigger] full_bytes_before(block@, k) + 273 + capacity
                    <= usize::MAX,
        decreases len - i,
    {
        if block[i] == 255 {
            run += 1;
        } else {
            run = 0;
        }
        i += 1;
        if run > limit {
            assert(255 * full_bytes_before(block@, i as int) + 273 + capacity > usize::MAX);
            return false;
        }
    }
    true
}

/// The bytes 255 in a row right before a place are as many as there are: they all are 255, and the
/// byte before them, if there is one, is not.
pub proof fn law_full_bytes_before(block: Seq<u8>, i: int)
    requires
        0 <= i <= block.len(),
    ensures
        ({
            let run = full_bytes_before(block, i);
            &&& run <= i
            &&& forall|k: int| i - run <= k < i ==> #[trigger] block[k] == 255
            &&& run < i ==> block[i - run - 1] != 255
        }),
    decreases i,
{
    if i > 0 {
        law_full_bytes_before(block, i - 1);
    }
}

/// The lengths in a block fit where the block's own length does, with room for eighteen, and where
/// each run of bytes 255 can be added up, with room for the output and 273 more.
pub proof fn law_lengths_fit(block: Seq<u8>, capacity: nat)
    ensures
        lengths_fit(block, capacity) <==> {
            &&& block.len() + 18 <= usize::MAX
            &&& forall|i: int|
                0 <= i <= block.len() ==> 255 * #[trigger] full_bytes_before(block, i) + 273
                    + capacity <= usize::MAX
        },
        decodable(block, capacity) <==> lengths_fit(block, capacity) || block_decoded(
            block,
            capacity,
        ) is Some,
{
}

} // verus!
