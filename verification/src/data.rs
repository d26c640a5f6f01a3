//! The encoded form of a column, or of a slice of one.

use crate::arrays::collect_valid_primitive;
use crate::arrays::collect_valid_vbv;
use crate::arrays::Canonical;
use crate::arrays::PrimitiveArray;
use crate::arrays::VarBinViewArray;
use crate::buffer::buffer_bytes;
use crate::buffer::clone_buffers;
use crate::buffer::same_bytes;
use crate::buffer::ByteBuffer;
use crate::bytes::all_prefixed;
use crate::bytes::concat;
use crate::bytes::lemma_concat_range;
use crate::bytes::lemma_concat_uniform;
use crate::bytes::lemma_value_start;
use crate::bytes::value_start;
use crate::codec::block_decoded;
use crate::codec::compressible_len;
use crate::dtype::DType;
use crate::error::Lz4Error;
use crate::frames::compress_values;
use crate::frames::frame_bytes;
use crate::frames::frame_capacity;
use crate::frames::frame_count;
use crate::frames::frame_end;
use crate::frames::frame_parts;
use crate::frames::frame_starts;
use crate::frames::frames_hold;
use crate::frames::law_frame_capacity;
use crate::frames::law_frames_hold_parts;
use crate::frames::law_no_parts_no_frames;
use crate::frames::lemma_frame_count;
use crate::frames::values_in_frame;
use crate::frames::Frames;
use crate::metadata::Lz4Metadata;
use crate::rows::present;
use crate::validity::Validity;
use crate::validity::ValidityView;
use vstd::prelude::*;

verus! {

/// The frames of an encoded column, and the slice of its rows that is meant.
#[derive(Debug)]
pub struct Lz4Data {
    /// The compressed frames, which hold the values of the rows that hold one.
    pub frames: Vec<ByteBuffer>,
    /// The metadata of the frames.
    pub metadata: Lz4Metadata,
    /// The number of rows of the whole column.
    pub unsliced_n_rows: usize,
    /// The first row of the slice.
    pub slice_start: usize,
    /// The row behind the last of the slice.
    pub slice_stop: usize,
}

/// Movable parts of a [`Lz4Data`] value plus its validity.
#[derive(Debug)]
pub struct Lz4DataParts {
    /// Compressed LZ4 frames.
    pub frames: Vec<ByteBuffer>,
    /// Frame metadata.
    pub metadata: Lz4Metadata,
    /// Unsliced validity for the array.
    pub validity: Validity,
    /// Unsliced row count.
    pub n_rows: usize,
    /// Start of this logical slice in unsliced row coordinates.
    pub slice_start: usize,
    /// End of this logical slice in unsliced row coordinates.
    pub slice_stop: usize,
}

/// One of the values that a hasher is fed.
#[derive(Debug)]
pub enum HashPart {
    /// The bytes of a frame.
    Bytes(ByteBuffer),
    /// A number of rows.
    Number(usize),
}

/// The value of a [`HashPart`].
pub enum HashPartView {
    Bytes(Seq<u8>),
    Number(nat),
}

impl View for HashPart {
    type V = HashPartView;

    open spec fn view(&self) -> HashPartView {
        match self {
            HashPart::Bytes(bytes) => HashPartView::Bytes(bytes@),
            HashPart::Number(n) => HashPartView::Number(*n as nat),
        }
    }
}

/// The values of a row of parts.
pub open spec fn hash_part_views(parts: Seq<HashPart>) -> Seq<HashPartView> {
    parts.map_values(|p: HashPart| p@)
}

impl Lz4Data {
    /// The bytes of the frames.
    pub open spec fn blocks(self) -> Seq<Seq<u8>> {
        buffer_bytes(self.frames@)
    }

    /// Whether the slice lies within the column.
    pub open spec fn in_range(self) -> bool {
        self.slice_start <= self.slice_stop <= self.unsliced_n_rows
    }

    /// Whether the frames stand for these parts, one for each row that holds a value, `per_frame`
    /// in each frame but the last.
    pub open spec fn holds(self, parts: Seq<Seq<u8>>, per_frame: nat) -> bool {
        frames_hold(self.blocks(), self.metadata@, parts, per_frame)
    }

    /// Whether this is all of a column of `n_rows` rows.
    pub open spec fn is_whole(self, n_rows: nat) -> bool {
        &&& self.unsliced_n_rows == n_rows
        &&& self.slice_start == 0
        &&& self.slice_stop == n_rows
    }

    /// Whether this is all of a primitive column, in frames of the given size.
    pub open spec fn encodes_primitive(self, parray: PrimitiveArray, values_per_frame: nat) -> bool {
        &&& self.is_whole(parray.len as nat)
        &&& self.holds(
            present(parray.rows()),
            frame_capacity(
                values_per_frame,
                present(parray.rows()).len(),
                parray.alignment as nat / parray.ptype.width(),
            ),
        )
    }

    /// Whether this is all of a column of byte strings, in frames of the given size.
    pub open spec fn encodes_var_bin(self, vbv: VarBinViewArray, values_per_frame: nat) -> bool {
        &&& self.is_whole(vbv.views@.len())
        &&& self.holds(
            all_prefixed(present(vbv.rows())),
            frame_capacity(values_per_frame, present(vbv.rows()).len(), 1),
        )
    }

    /// Whether this is all of a canonical column, in frames of the given size.
    pub open spec fn encodes(self, canonical: Canonical, values_per_frame: nat) -> bool {
        match canonical {
            Canonical::Primitive(parray) => self.encodes_primitive(parray, values_per_frame),
            Canonical::VarBinView(vbv) => self.encodes_var_bin(vbv, values_per_frame),
            Canonical::Other(_) => false,
        }
    }

    /// Whether two encoded columns have the same frames, by their bytes, and mean the same slice.
    pub open spec fn equals(self, other: Lz4Data) -> bool {
        &&& self.blocks() == other.blocks()
        &&& self.unsliced_n_rows == other.unsliced_n_rows
        &&& self.slice_start == other.slice_start
        &&& self.slice_stop == other.slice_stop
    }

    /// Whether two encoded columns have as many frames, each pair of them equal under some accuracy,
    /// and mean the same slice. `frames_equal` tells of each pair whether it is equal.
    pub open spec fn equals_by(self, other: Lz4Data, frames_equal: Seq<bool>) -> bool {
        &&& self.blocks().len() == other.blocks().len()
        &&& forall|i: int| 0 <= i < self.blocks().len() ==> #[trigger] frames_equal[i]
        &&& self.unsliced_n_rows == other.unsliced_n_rows
        &&& self.slice_start == other.slice_start
        &&& self.slice_stop == other.slice_stop
    }

    /// What is fed to a hasher, by the bytes of the frames.
    pub open spec fn hashed(self) -> Seq<HashPartView> {
        self.hashed_by(self.blocks())
    }

    /// What is fed to a hasher: what each frame feeds it under some accuracy, the number of rows,
    /// and the slice.
    pub open spec fn hashed_by(self, fed_by_frames: Seq<Seq<u8>>) -> Seq<HashPartView> {
        fed_by_frames.map_values(|b: Seq<u8>| HashPartView::Bytes(b)) + seq![
            HashPartView::Number(self.unsliced_n_rows as nat),
            HashPartView::Number(self.slice_start as nat),
            HashPartView::Number(self.slice_stop as nat),
        ]
    }

    /// The first of the invariants of an array of this type and length that the data breaks.
    pub open spec fn defect(self, dtype: DType, len: nat, validity: ValidityView) -> Option<
        Lz4Error,
    > {
        if dtype is Other {
            Some(Lz4Error::UnsupportedDType)
        } else if self.slice_start > self.slice_stop {
            Some(
                Lz4Error::InvalidSliceRange { start: self.slice_start, stop: self.slice_stop },
            )
        } else if self.slice_stop > self.unsliced_n_rows {
            Some(
                Lz4Error::SliceStopExceedsRows {
                    stop: self.slice_stop,
                    n_rows: self.unsliced_n_rows,
                },
            )
        } else if self.slice_stop - self.slice_start != len {
            Some(
                Lz4Error::SliceLengthMismatch {
                    slice_len: (self.slice_stop - self.slice_start) as usize,
                    len: len as usize,
                },
            )
        } else if !validity.covers(self.unsliced_n_rows as nat) {
            Some(
                Lz4Error::ValidityLengthMismatch {
                    validity_len: validity->Array_0.len() as usize,
                    n_rows: self.unsliced_n_rows,
                },
            )
        } else if self.blocks().len() != self.metadata@.len() {
            Some(
                Lz4Error::FrameCountMismatch {
                    frames: self.blocks().len() as usize,
                    metadata_frames: self.metadata@.len() as usize,
                },
            )
        } else {
            None
        }
    }

    /// Unsliced data from frames and their metadata.
    pub fn new(frames: Vec<ByteBuffer>, metadata: Lz4Metadata, n_rows: usize) -> (data: Self)
        ensures
            data.frames == frames,
            data.metadata == metadata,
            data.is_whole(n_rows as nat),
            data.unsliced_n_rows == n_rows,
            data.slice_start == 0,
            data.slice_stop == n_rows,
    {
        Lz4Data { frames, metadata, unsliced_n_rows: n_rows, slice_start: 0, slice_stop: n_rows }
    }

    /// Compresses the values of a primitive column.
    ///
    /// Each frame begins at a multiple of the values' alignment, and holds `values_per_frame`
    /// values, or the next larger number that keeps the alignment; 0 asks for a single frame.
    pub fn from_primitive(parray: &PrimitiveArray, values_per_frame: usize) -> (data: Result<
        Self,
        Lz4Error,
    >)
        requires
            primitive_encodable(*parray),
        ensures
            data matches Ok(d) && d.encodes_primitive(*parray, values_per_frame as nat),
    {
        let byte_width: usize = parray.ptype.byte_width();
        let ghost parts = present(parray.rows());
        let ghost width = byte_width as nat;
        let value_bytes: ByteBuffer = collect_valid_primitive(parray);
        proof {
            parray.lemma_present_width();
            lemma_concat_uniform(parts, width);
            vstd::arithmetic::div_mod::lemma_div_by_multiple(parts.len() as int, width as int);
            vstd::arithmetic::div_mod::lemma_fundamental_div_mod(
                parray.alignment as int,
                width as int,
            );
            assert(parray.alignment as int / width as int > 0) by (nonlinear_arith)
                requires
                    parray.alignment as int == width as int * (parray.alignment as int
                        / width as int),
                    parray.alignment > 0,
                    width > 0,
            ;
        }
        let n_bytes: usize = value_bytes.len();
        let n_values: usize = n_bytes / byte_width;
        let per_frame: usize = values_in_frame(
            values_per_frame,
            n_values,
            parray.alignment / byte_width,
        );
        let starts: Vec<usize> = frame_starts(n_values, per_frame);
        let mut frame_byte_starts: Vec<usize> = Vec::new();
        let mut i: usize = 0;
        while i < starts.len()
            invariant
                width == byte_width,
                n_values == parts.len(),
                value_bytes@ == concat(parts),
                n_bytes == n_values * width,
                forall|k: int| 0 <= k < parts.len() ==> (#[trigger] parts[k]).len() == width,
                forall|k: int| 0 <= k < starts@.len() ==> #[trigger] starts@[k] < n_values,
                i <= starts@.len(),
                frame_byte_starts@.len() == i,
                forall|k: int|
                    0 <= k < i ==> #[trigger] frame_byte_starts@[k] == concat(
                        parts.take(starts@[k] as int),
                    ).len(),
            decreases starts@.len() - i,
        {
            proof {
                let start = starts@[i as int] as int;
                lemma_concat_uniform(parts.take(start), width);
                crate::rows::lemma_cell_bounds(start, n_values as int, width);
            }
            frame_byte_starts.push(starts[i] * byte_width);
            i += 1;
        }
        proof {
            lemma_starts_ordered(
                parts,
                n_values as nat,
                per_frame as nat,
                starts@,
                frame_byte_starts@,
            );
            if starts@.len() > 0 {
                assert(starts@[starts@.len() - 1] < n_values);
            }
        }
        let Frames { frames, frame_metas } = match compress_values(
            &value_bytes,
            &frame_byte_starts,
            per_frame,
            n_values,
        ) {
            Ok(frames) => frames,
            Err(e) => {
                return Err(e);
            },
        };
        let ghost metas = frame_metas@;
        let ghost blocks = frames@;
        let data = Lz4Data::new(frames, Lz4Metadata { frames: frame_metas }, parray.len);
        proof {
            assert(data.metadata@ == metas && data.frames@ == blocks);
            lemma_frames_hold(data, parts, per_frame as nat, starts@, frame_byte_starts@);
        }
        Ok(data)
    }

    /// Compresses the values of a column of byte strings, each behind its length as a
    /// little-endian `u32`.
    ///
    /// Each frame holds `values_per_frame` values; 0 asks for a single frame.
    pub fn from_var_bin_view(vbv: &VarBinViewArray, values_per_frame: usize) -> (data: Result<
        Self,
        Lz4Error,
    >)
        requires
            var_bin_encodable(*vbv),
        ensures
            data matches Ok(d) && d.encodes_var_bin(*vbv, values_per_frame as nat),
    {
        let ghost values = present(vbv.rows());
        let ghost parts = all_prefixed(values);
        let (value_bytes, value_byte_indices) = collect_valid_vbv(vbv);
        let n_values: usize = value_byte_indices.len();
        let per_frame: usize = values_in_frame(values_per_frame, n_values, 1);
        let starts: Vec<usize> = frame_starts(n_values, per_frame);
        let mut frame_byte_starts: Vec<usize> = Vec::new();
        let mut i: usize = 0;
        while i < starts.len()
            invariant
                parts == all_prefixed(values),
                n_values == values.len(),
                value_byte_indices@.len() == n_values,
                forall|k: int|
                    0 <= k < n_values ==> #[trigger] value_byte_indices@[k] == value_start(
                        values,
                        k,
                    ),
                forall|k: int| 0 <= k < starts@.len() ==> #[trigger] starts@[k] < n_values,
                i <= starts@.len(),
                frame_byte_starts@.len() == i,
                forall|k: int|
                    0 <= k < i ==> #[trigger] frame_byte_starts@[k] == concat(
                        parts.take(starts@[k] as int),
                    ).len(),
            decreases starts@.len() - i,
        {
            proof {
                lemma_value_start(values, starts@[i as int] as int);
            }
            frame_byte_starts.push(value_byte_indices[starts[i]]);
            i += 1;
        }
        proof {
            lemma_starts_ordered(
                parts,
                n_values as nat,
                per_frame as nat,
                starts@,
                frame_byte_starts@,
            );
            if starts@.len() > 0 {
                assert(starts@[starts@.len() - 1] < n_values);
            }
        }
        let Frames { frames, frame_metas } = match compress_values(
            &value_bytes,
            &frame_byte_starts,
            per_frame,
            n_values,
        ) {
            Ok(frames) => frames,
            Err(e) => {
                return Err(e);
            },
        };
        let ghost metas = frame_metas@;
        let ghost blocks = frames@;
        let data = Lz4Data::new(frames, Lz4Metadata { frames: frame_metas }, vbv.len());
        proof {
            assert(data.metadata@ == metas && data.frames@ == blocks);
            lemma_frames_hold(data, parts, per_frame as nat, starts@, frame_byte_starts@);
        }
        Ok(data)
    }

    /// Compresses a canonical column, or returns `Ok(None)` for one that this encoding does not
    /// store.
    pub fn from_canonical(canonical: &Canonical, values_per_frame: usize) -> (data: Result<
        Option<Self>,
        Lz4Error,
    >)
        requires
            canonical_encodable(*canonical),
        ensures
            data is Ok,
            data matches Ok(None) <==> canonical is Other,
            data matches Ok(Some(d)) ==> d.encodes(*canonical, values_per_frame as nat),
    {
        match canonical {
            Canonical::Primitive(parray) => match Lz4Data::from_primitive(
                parray,
                values_per_frame,
            ) {
                Ok(data) => Ok(Some(data)),
                Err(e) => Err(e),
            },
            Canonical::VarBinView(vbv) => match Lz4Data::from_var_bin_view(vbv, values_per_frame) {
                Ok(data) => Ok(Some(data)),
                Err(e) => Err(e),
            },
            Canonical::Other(_) => Ok(None),
        }
    }

    /// Compresses a column, given in its canonical form.
    ///
    /// # Errors
    ///
    /// Returns [`Lz4Error::UnsupportedArray`] where this encoding does not store the form.
    pub fn from_array(array: Canonical, values_per_frame: usize) -> (data: Result<Self, Lz4Error>)
        requires
            canonical_encodable(array),
        ensures
            match data {
                Ok(d) => d.encodes(array, values_per_frame as nat),
                Err(e) => array is Other && e == Lz4Error::UnsupportedArray,
            },
    {
        match Lz4Data::from_canonical(&array, values_per_frame) {
            Ok(Some(data)) => Ok(data),
            Ok(None) => Err(Lz4Error::UnsupportedArray),
            Err(e) => Err(e),
        }
    }

    /// Checks the type, slice, validity and frame invariants of an array of this type and length.
    pub fn validate(&self, dtype: &DType, len: usize, validity: &Validity) -> (checked: Result<
        (),
        Lz4Error,
    >)
        ensures
            match checked {
                Ok(_) => self.defect(*dtype, len as nat, validity@) is None,
                Err(e) => self.defect(*dtype, len as nat, validity@) == Some(e),
            },
            checked is Ok <==> {
                &&& dtype !is Other
                &&& self.slice_start <= self.slice_stop <= self.unsliced_n_rows
                &&& self.slice_stop - self.slice_start == len
                &&& validity matches Validity::Array(flags) ==> flags@.len()
                    == self.unsliced_n_rows
                &&& self.frames@.len() == self.metadata.frames@.len()
            },
    {
        match dtype {
            DType::Primitive(_, _) | DType::Binary(_) | DType::Utf8(_) => {},
            DType::Other(_) => {
                return Err(Lz4Error::UnsupportedDType);
            },
        }
        if self.slice_start > self.slice_stop {
            return Err(
                Lz4Error::InvalidSliceRange { start: self.slice_start, stop: self.slice_stop },
            );
        }
        if self.slice_stop > self.unsliced_n_rows {
            return Err(
                Lz4Error::SliceStopExceedsRows {
                    stop: self.slice_stop,
                    n_rows: self.unsliced_n_rows,
                },
            );
        }
        if self.slice_stop - self.slice_start != len {
            return Err(
                Lz4Error::SliceLengthMismatch {
                    slice_len: self.slice_stop - self.slice_start,
                    len,
                },
            );
        }
        if let Some(validity_len) = validity.maybe_len() {
            if validity_len != self.unsliced_n_rows {
                return Err(
                    Lz4Error::ValidityLengthMismatch { validity_len, n_rows: self.unsliced_n_rows },
                );
            }
        }
        if self.frames.len() != self.metadata.frames.len() {
            return Err(
                Lz4Error::FrameCountMismatch {
                    frames: self.frames.len(),
                    metadata_frames: self.metadata.frames.len(),
                },
            );
        }
        Ok(())
    }

    /// The rows `start..stop` of the slice, as a slice of the same frames.
    pub fn with_slice(&self, start: usize, stop: usize) -> (part: Self)
        requires
            self.slice_start + start <= self.slice_stop,
            self.slice_start + stop <= self.slice_stop,
        ensures
            part.blocks() == self.blocks(),
            part.metadata@ == self.metadata@,
            part.unsliced_n_rows == self.unsliced_n_rows,
            part.slice_start == self.slice_start + start,
            part.slice_stop == self.slice_start + stop,
    {
        let copy: Lz4Data = self.clone();
        Lz4Data {
            frames: copy.frames,
            metadata: copy.metadata,
            unsliced_n_rows: copy.unsliced_n_rows,
            slice_start: self.slice_start + start,
            slice_stop: self.slice_start + stop,
        }
    }

    /// The width that a frame's value count is taken from where its metadata does not say it.
    pub fn byte_width(dtype: &DType) -> (width: usize)
        ensures
            width == value_width(*dtype),
            *dtype matches DType::Primitive(ptype, _) ==> width == ptype.width(),
            dtype !is Primitive ==> width == 1,
    {
        match dtype {
            DType::Primitive(ptype, _) => ptype.byte_width(),
            _ => 1,
        }
    }

    /// The number of rows of the slice.
    pub fn len(&self) -> (len: usize)
        requires
            self.slice_start <= self.slice_stop,
        ensures
            len == self.slice_stop - self.slice_start,
    {
        self.slice_stop - self.slice_start
    }

    /// Whether the slice has no row.
    pub fn is_empty(&self) -> (empty: bool)
        ensures
            empty == (self.slice_stop == self.slice_start),
    {
        self.slice_stop == self.slice_start
    }

    /// Splits the data into movable parts, with the supplied validity.
    pub fn into_parts(self, validity: Validity) -> (parts: Lz4DataParts)
        ensures
            parts.frames == self.frames,
            parts.metadata == self.metadata,
            parts.validity == validity,
            parts.n_rows == self.unsliced_n_rows,
            parts.slice_start == self.slice_start,
            parts.slice_stop == self.slice_stop,
    {
        Lz4DataParts {
            frames: self.frames,
            metadata: self.metadata,
            validity,
            n_rows: self.unsliced_n_rows,
            slice_start: self.slice_start,
            slice_stop: self.slice_stop,
        }
    }

    /// The first row of the slice, in the unsliced column.
    pub fn slice_start(&self) -> (start: usize)
        ensures
            start == self.slice_start,
    {
        self.slice_start
    }

    /// The row behind the last of the slice, in the unsliced column.
    pub fn slice_stop(&self) -> (stop: usize)
        ensures
            stop == self.slice_stop,
    {
        self.slice_stop
    }

    /// The number of rows of the unsliced column.
    pub fn unsliced_n_rows(&self) -> (n_rows: usize)
        ensures
            n_rows == self.unsliced_n_rows,
    {
        self.unsliced_n_rows
    }

    /// Whether two encoded columns have the same frames, by their bytes, and mean the same slice.
    pub fn array_eq(&self, other: &Self) -> (equal: bool)
        ensures
            equal == self.equals(*other),
            equal <==> {
                &&& self.frames@.len() == other.frames@.len()
                &&& forall|i: int|
                    0 <= i < self.frames@.len() ==> (#[trigger] self.frames@[i])@
                        == other.frames@[i]@
                &&& self.unsliced_n_rows == other.unsliced_n_rows
                &&& self.slice_start == other.slice_start
                &&& self.slice_stop == other.slice_stop
            },
    {
        proof {
            law_equal_columns(*self, *other);
        }
        if self.frames.len() != other.frames.len() {
            assert(self.blocks().len() != other.blocks().len());
            return false;
        }
        let mut frames_equal: Vec<bool> = Vec::new();
        let mut i: usize = 0;
        while i < self.frames.len()
            invariant
                i <= self.frames@.len() == other.frames@.len(),
                frames_equal@.len() == i,
                forall|k: int|
                    0 <= k < i ==> #[trigger] frames_equal@[k] == (self.blocks()[k]
                        == other.blocks()[k]),
            decreases self.frames@.len() - i,
        {
            assert(self.blocks()[i as int] == self.frames@[i as int]@);
            assert(other.blocks()[i as int] == other.frames@[i as int]@);
            frames_equal.push(same_bytes(self.frames[i].as_slice(), other.frames[i].as_slice()));
            i += 1;
        }
        proof {
            if self.equals_by(*other, frames_equal@) {
                assert forall|k: int| 0 <= k < self.blocks().len() implies self.blocks()[k]
                    == other.blocks()[k] by {
                    assert(frames_equal@[k]);
                }
                assert(self.blocks() =~= other.blocks());
            }
            if self.equals(*other) {
                assert forall|k: int| 0 <= k < self.blocks().len() implies #[trigger]
                    frames_equal@[k] by {
                    assert(self.blocks()[k] == other.blocks()[k]);
                }
            }
        }
        self.array_eq_by(other, &frames_equal)
    }

    /// Whether two encoded columns have as many frames, each pair of them equal, and mean the same
    /// slice. `frames_equal` tells of each pair of frames, compared under whatever accuracy, whether
    /// it is equal.
    pub fn array_eq_by(&self, other: &Self, frames_equal: &Vec<bool>) -> (equal: bool)
        requires
            self.blocks().len() == other.blocks().len() ==> frames_equal@.len()
                == self.blocks().len(),
        ensures
            equal == self.equals_by(*other, frames_equal@),
            equal <==> {
                &&& self.frames@.len() == other.frames@.len()
                &&& forall|i: int| 0 <= i < self.frames@.len() ==> #[trigger] frames_equal@[i]
                &&& self.unsliced_n_rows == other.unsliced_n_rows
                &&& self.slice_start == other.slice_start
                &&& self.slice_stop == other.slice_stop
            },
    {
        if self.frames.len() != other.frames.len() {
            return false;
        }
        let mut i: usize = 0;
        while i < frames_equal.len()
            invariant
                i <= frames_equal@.len() == self.blocks().len(),
                forall|k: int| 0 <= k < i ==> #[trigger] frames_equal@[k],
            decreases frames_equal@.len() - i,
        {
            if !frames_equal[i] {
                return false;
            }
            i += 1;
        }
        self.unsliced_n_rows == other.unsliced_n_rows && self.slice_start == other.slice_start
            && self.slice_stop == other.slice_stop
    }

    /// The values that a hasher is fed, by the bytes of the frames, in their order.
    pub fn hash_parts(&self) -> (parts: Vec<HashPart>)
        ensures
            hash_part_views(parts@) == self.hashed(),
            parts@.len() == self.frames@.len() + 3,
            forall|i: int|
                0 <= i < self.frames@.len() ==> ((#[trigger] parts@[i]) matches HashPart::Bytes(
                    bytes,
                ) && bytes@ == self.frames@[i]@),
            parts@[parts@.len() - 3] == HashPart::Number(self.unsliced_n_rows),
            parts@[parts@.len() - 2] == HashPart::Number(self.slice_start),
            parts@[parts@.len() - 1] == HashPart::Number(self.slice_stop),
    {
        self.hash_parts_by(&self.frames)
    }

    /// The values that a hasher is fed, in their order, where each frame feeds it the given bytes:
    /// its own, or what stands for it under another accuracy.
    pub fn hash_parts_by(&self, fed_by_frames: &Vec<ByteBuffer>) -> (parts: Vec<HashPart>)
        ensures
            hash_part_views(parts@) == self.hashed_by(buffer_bytes(fed_by_frames@)),
            parts@.len() == fed_by_frames@.len() + 3,
            forall|i: int|
                0 <= i < fed_by_frames@.len() ==> ((#[trigger] parts@[i]) matches HashPart::Bytes(
                    bytes,
                ) && bytes@ == fed_by_frames@[i]@),
            parts@[parts@.len() - 3] == HashPart::Number(self.unsliced_n_rows),
            parts@[parts@.len() - 2] == HashPart::Number(self.slice_start),
            parts@[parts@.len() - 1] == HashPart::Number(self.slice_stop),
    {
        let mut parts: Vec<HashPart> = Vec::new();
        let mut i: usize = 0;
        while i < fed_by_frames.len()
            invariant
                i <= fed_by_frames@.len(),
                parts@.len() == i,
                forall|k: int|
                    0 <= k < i ==> (#[trigger] parts@[k])@ == HashPartView::Bytes(
                        fed_by_frames@[k]@,
                    ),
                forall|k: int|
                    0 <= k < i ==> ((#[trigger] parts@[k]) matches HashPart::Bytes(bytes) && bytes@
                        == fed_by_frames@[k]@),
            decreases fed_by_frames@.len() - i,
        {
            parts.push(HashPart::Bytes(fed_by_frames[i].clone()));
            i += 1;
        }
        parts.push(HashPart::Number(self.unsliced_n_rows));
        parts.push(HashPart::Number(self.slice_start));
        parts.push(HashPart::Number(self.slice_stop));
        assert(hash_part_views(parts@) =~= self.hashed_by(buffer_bytes(fed_by_frames@)));
        parts
    }
}

/// Equal columns feed a hasher the same under every accuracy under which equal frames do.
///
/// `frames_equal` tells which pairs of frames are equal under the accuracy, and `fed_by_a` and
/// `fed_by_b` what each frame feeds a hasher under it.
pub proof fn law_equal_columns_hash_alike_by(
    a: Lz4Data,
    b: Lz4Data,
    frames_equal: Seq<bool>,
    fed_by_a: Seq<Seq<u8>>,
    fed_by_b: Seq<Seq<u8>>,
)
    requires
        fed_by_a.len() == a.blocks().len(),
        fed_by_b.len() == b.blocks().len(),
        forall|i: int|
            0 <= i < a.blocks().len() && i < b.blocks().len() && #[trigger] frames_equal[i]
                ==> fed_by_a[i] == fed_by_b[i],
        a.equals_by(b, frames_equal),
    ensures
        a.hashed_by(fed_by_a) == b.hashed_by(fed_by_b),
{
    assert forall|i: int| 0 <= i < fed_by_a.len() implies fed_by_a[i] == fed_by_b[i] by {
        assert(frames_equal[i]);
    }
    assert(fed_by_a =~= fed_by_b);
}

/// Equal columns feed a hasher the same, and columns that feed a hasher the same are equal.
pub proof fn law_equal_columns_hash_alike(a: Lz4Data, b: Lz4Data)
    ensures
        a.equals(b) <==> a.hashed() == b.hashed(),
{
    if a.hashed() == b.hashed() {
        let n = a.blocks().len() as int;
        assert(a.hashed().len() == n + 3);
        assert(b.blocks().len() == n);
        assert forall|i: int| 0 <= i < n implies a.blocks()[i] == b.blocks()[i] by {
            assert(a.hashed()[i] == HashPartView::Bytes(a.blocks()[i]));
            assert(b.hashed()[i] == HashPartView::Bytes(b.blocks()[i]));
        }
        assert(a.blocks() =~= b.blocks());
        assert(a.hashed()[n] == HashPartView::Number(a.unsliced_n_rows as nat));
        assert(b.hashed()[n] == HashPartView::Number(b.unsliced_n_rows as nat));
        assert(a.hashed()[n + 1] == HashPartView::Number(a.slice_start as nat));
        assert(b.hashed()[n + 1] == HashPartView::Number(b.slice_start as nat));
        assert(a.hashed()[n + 2] == HashPartView::Number(a.slice_stop as nat));
        assert(b.hashed()[n + 2] == HashPartView::Number(b.slice_stop as nat));
    }
}

impl Clone for Lz4Data {
    fn clone(&self) -> (copy: Self)
        ensures
            copy.blocks() == self.blocks(),
            copy.metadata@ == self.metadata@,
            copy.unsliced_n_rows == self.unsliced_n_rows,
            copy.slice_start == self.slice_start,
            copy.slice_stop == self.slice_stop,
    {
        Lz4Data {
            frames: clone_buffers(&self.frames),
            metadata: self.metadata.clone(),
            unsliced_n_rows: self.unsliced_n_rows,
            slice_start: self.slice_start,
            slice_stop: self.slice_stop,
        }
    }
}

/// The width that a frame's value count is taken from where its metadata does not say it: that of
/// a primitive value, and one byte for other types.
pub open spec fn value_width(dtype: DType) -> nat {
    match dtype {
        DType::Primitive(ptype, _) => ptype.width(),
        _ => 1,
    }
}

/// Whether a primitive column can be compressed: it is well-formed, and the compressor's size
/// arithmetic stays within the machine's integers.
pub open spec fn primitive_encodable(parray: PrimitiveArray) -> bool {
    &&& parray.wf()
    &&& compressible_len(concat(present(parray.rows())).len())
}

/// Whether a column of byte strings can be compressed.
pub open spec fn var_bin_encodable(vbv: VarBinViewArray) -> bool {
    &&& vbv.wf()
    &&& compressible_len(concat(all_prefixed(present(vbv.rows()))).len())
}

/// Whether a canonical column can be compressed, or is of a form that this encoding refuses.
pub open spec fn canonical_encodable(canonical: Canonical) -> bool {
    match canonical {
        Canonical::Primitive(parray) => primitive_encodable(parray),
        Canonical::VarBinView(vbv) => var_bin_encodable(vbv),
        Canonical::Other(_) => true,
    }
}

/// Frames that begin with later values begin with later bytes.
proof fn lemma_starts_ordered(
    parts: Seq<Seq<u8>>,
    n: nat,
    per_frame: nat,
    starts: Seq<usize>,
    byte_starts: Seq<usize>,
)
    requires
        n == parts.len(),
        byte_starts.len() == starts.len(),
        forall|i: int| 0 <= i < starts.len() ==> #[trigger] starts[i] == i * per_frame,
        forall|i: int| 0 <= i < starts.len() ==> #[trigger] starts[i] < n,
        forall|i: int|
            0 <= i < starts.len() ==> #[trigger] byte_starts[i] == concat(
                parts.take(starts[i] as int),
            ).len(),
    ensures
        forall|i: int, j: int|
            0 <= i <= j < byte_starts.len() ==> #[trigger] byte_starts[i] <= #[trigger] byte_starts[j]
                <= concat(parts).len(),
{
    assert forall|i: int, j: int| 0 <= i <= j < byte_starts.len() implies #[trigger] byte_starts[i]
        <= #[trigger] byte_starts[j] <= concat(parts).len() by {
        assert(i * per_frame <= j * per_frame) by (nonlinear_arith)
            requires
                i <= j,
        ;
        lemma_concat_range(parts, starts[i] as int, starts[j] as int);
    }
}

/// Frames compressed between the starts of every `per_frame`th part hold the parts.
proof fn lemma_frames_hold(
    data: Lz4Data,
    parts: Seq<Seq<u8>>,
    per_frame: nat,
    starts: Seq<usize>,
    byte_starts: Seq<usize>,
)
    requires
        parts.len() > 0 ==> per_frame > 0,
        starts.len() == frame_count(parts.len(), per_frame),
        byte_starts.len() == starts.len(),
        data.frames@.len() == starts.len(),
        data.metadata@.len() == starts.len(),
        forall|i: int| 0 <= i < starts.len() ==> #[trigger] starts[i] == i * per_frame,
        forall|i: int|
            0 <= i < starts.len() ==> #[trigger] byte_starts[i] == concat(
                parts.take(starts[i] as int),
            ).len(),
        forall|i: int|
            0 <= i < starts.len() ==> {
                let bytes = frame_bytes(concat(parts), byte_starts, i);
                let meta = #[trigger] data.metadata@[i];
                &&& meta.uncompressed_size == bytes.len()
                &&& meta.n_values == frame_end(parts.len(), per_frame, i) - i * per_frame
                &&& data.frames@[i]@.len() <= crate::codec::max_compressed_len(bytes.len())
                &&& crate::codec::block_decoded(data.frames@[i]@, bytes.len()) == Some(bytes)
            },
    ensures
        data.holds(parts, per_frame),
{
    let n = parts.len();
    assert forall|i: int| 0 <= i < data.blocks().len() implies crate::frames::frame_holds(
        #[trigger] data.blocks()[i],
        data.metadata@[i],
        frame_parts(parts, per_frame, i),
    ) by {
        let meta = data.metadata@[i];
        lemma_frame_count(n, per_frame, i);
        lemma_frame_count(n, per_frame, i + 1);
        assert((i + 1) * per_frame == i * per_frame + per_frame) by (nonlinear_arith);
        assert(i * per_frame >= 0) by (nonlinear_arith)
            requires
                i >= 0,
        ;
        let start = i * per_frame;
        let end = frame_end(n, per_frame, i);
        lemma_concat_range(parts, start, end);
        assert(starts[i] == start);
        assert(byte_starts[i] == concat(parts.take(start)).len());
        if i + 1 < starts.len() {
            assert(starts[i + 1] == end);
            assert(byte_starts[i + 1] == concat(parts.take(end)).len());
        } else {
            assert(parts.take(end) =~= parts);
        }
        assert(frame_bytes(concat(parts), byte_starts, i) == concat(
            frame_parts(parts, per_frame, i),
        ));
        assert(data.blocks()[i] == data.frames@[i]@);
    }
}

/// Two encoded columns are equal exactly where they have as many frames, each pair of the same
/// bytes, the same number of rows, and the same slice. Their metadata is not compared.
pub proof fn law_equal_columns(a: Lz4Data, b: Lz4Data)
    ensures
        a.equals(b) <==> {
            &&& a.frames@.len() == b.frames@.len()
            &&& forall|i: int|
                0 <= i < a.frames@.len() ==> (#[trigger] a.frames@[i])@ == b.frames@[i]@
            &&& a.unsliced_n_rows == b.unsliced_n_rows
            &&& a.slice_start == b.slice_start
            &&& a.slice_stop == b.slice_stop
        },
{
    if a.equals(b) {
        assert(a.blocks().len() == b.blocks().len());
        assert forall|i: int| 0 <= i < a.frames@.len() implies (#[trigger] a.frames@[i])@
            == b.frames@[i]@ by {
            assert(a.blocks()[i] == b.blocks()[i]);
        }
    }
    if a.frames@.len() == b.frames@.len() && forall|i: int|
        0 <= i < a.frames@.len() ==> (#[trigger] a.frames@[i])@ == b.frames@[i]@ {
        assert forall|i: int| 0 <= i < a.blocks().len() implies a.blocks()[i] == b.blocks()[i] by {
            assert(a.frames@[i]@ == b.frames@[i]@);
        }
        assert(a.blocks() =~= b.blocks());
    }
}

/// What an array of a type and a length asks of its data, one after the other: a type that is
/// stored, a slice whose start is not behind its end, whose end is not behind the last row, and
/// which has the array's length, a validity that speaks of every row, and as many frames as
/// metadata. The first that is broken is told, with the numbers that break it.
pub proof fn law_first_defect(data: Lz4Data, dtype: DType, len: usize, validity: Validity)
    requires
        data.frames@.len() <= usize::MAX,
        data.metadata.frames@.len() <= usize::MAX,
        validity matches Validity::Array(flags) ==> flags@.len() <= usize::MAX,
    ensures
        ({
            let found = data.defect(dtype, len as nat, validity@);
            let typed = dtype !is Other;
            let ordered = data.slice_start <= data.slice_stop;
            let within = data.slice_stop <= data.unsliced_n_rows;
            let sized = data.slice_stop - data.slice_start == len;
            let spoken = validity matches Validity::Array(flags) ==> flags@.len()
                == data.unsliced_n_rows;
            let paired = data.frames@.len() == data.metadata.frames@.len();
            &&& !typed ==> found == Some(Lz4Error::UnsupportedDType)
            &&& typed && !ordered ==> found == Some(
                Lz4Error::InvalidSliceRange { start: data.slice_start, stop: data.slice_stop },
            )
            &&& typed && ordered && !within ==> found == Some(
                Lz4Error::SliceStopExceedsRows {
                    stop: data.slice_stop,
                    n_rows: data.unsliced_n_rows,
                },
            )
            &&& typed && ordered && within && !sized ==> (found matches Some(
                Lz4Error::SliceLengthMismatch { slice_len, len: asked },
            ) && slice_len == data.slice_stop - data.slice_start && asked == len)
            &&& typed && ordered && within && sized && !spoken ==> (found matches Some(
                Lz4Error::ValidityLengthMismatch { validity_len, n_rows },
            ) && (validity matches Validity::Array(flags) && validity_len == flags@.len()) && n_rows
                == data.unsliced_n_rows)
            &&& typed && ordered && within && sized && spoken && !paired ==> (found matches Some(
                Lz4Error::FrameCountMismatch { frames, metadata_frames },
            ) && frames == data.frames@.len() && metadata_frames == data.metadata.frames@.len())
            &&& typed && ordered && within && sized && spoken && paired ==> found is None
        }),
{
}

/// A column is encoded by what encodes its form: a primitive column or one of byte strings. No other
/// form is encoded.
pub proof fn law_encodes_by_form(data: Lz4Data, canonical: Canonical, values_per_frame: nat)
    ensures
        canonical matches Canonical::Primitive(parray) ==> (data.encodes(canonical, values_per_frame)
            <==> data.encodes_primitive(parray, values_per_frame)),
        canonical matches Canonical::VarBinView(vbv) ==> (data.encodes(canonical, values_per_frame)
            <==> data.encodes_var_bin(vbv, values_per_frame)),
        canonical is Other ==> !data.encodes(canonical, values_per_frame),
{
}

/// The frames of a primitive column decode to its values alone, nulls left out, one behind the other
/// and in the order of the rows, each value as its bytes stand in the column. Every frame but the
/// last holds as many as the first. Where no number per frame is asked for there is one frame; where
/// fewer are asked for than there are values, a frame holds as many as asked for, or more by less
/// than what keeps the next frame aligned.
pub proof fn law_primitive_frames_hold_values(
    parray: PrimitiveArray,
    values_per_frame: nat,
    data: Lz4Data,
    i: int,
)
    requires
        parray.wf(),
        data.encodes_primitive(parray, values_per_frame),
        0 <= i < data.frames@.len(),
    ensures
        data.unsliced_n_rows == parray.len,
        data.slice_start == 0,
        data.slice_stop == parray.len,
        data.metadata@.len() == data.frames@.len(),
        ({
            let values = present(parray.rows());
            let width = parray.ptype.width();
            let per_frame = data.metadata@[0].n_values as int;
            let held = data.metadata@[i].n_values as int;
            &&& i + 1 < data.frames@.len() ==> held == per_frame
            &&& i + 1 == data.frames@.len() ==> 1 <= held <= per_frame && i * per_frame + held
                == values.len()
            &&& 0 <= i * per_frame
            &&& i * per_frame + held <= values.len()
            &&& data.metadata@[i].uncompressed_size == held * width
            &&& block_decoded(
                data.frames@[i]@,
                data.metadata@[i].uncompressed_size as nat,
            ) == Some(concat(values.subrange(i * per_frame, i * per_frame + held)))
            &&& values_per_frame == 0 || values_per_frame >= values.len() ==> data.frames@.len()
                == 1
            &&& data.frames@.len() > 1 ==> {
                &&& (per_frame * width) % (parray.alignment as int) == 0
                &&& values_per_frame <= per_frame
                &&& (per_frame - values_per_frame) * width < parray.alignment
            }
        }),
{
    let values = present(parray.rows());
    let width = parray.ptype.width();
    let a = parray.alignment as int;
    let w = width as int;
    let unit = a / w;
    let capacity = frame_capacity(values_per_frame, values.len(), unit as nat);
    vstd::arithmetic::div_mod::lemma_fundamental_div_mod(a, w);
    assert(unit > 0) by (nonlinear_arith)
        requires
            a == w * unit,
            a > 0,
            w > 0,
    ;
    let frames = data.blocks();
    let metas = data.metadata@;
    assert(frames[i] == data.frames@[i]@);
    law_frames_hold_parts(frames, metas, values, capacity, i);
    law_frames_hold_parts(frames, metas, values, capacity, 0);
    law_frame_capacity(values_per_frame, values.len(), unit as nat, 0);
    parray.lemma_present_width();
    let per_frame = metas[0].n_values as int;
    let held = metas[i].n_values as int;
    let last = frames.len() - 1;
    lemma_frame_count(values.len(), capacity, 1);
    if frames.len() == 1 {
        assert(0 * capacity == 0) by (nonlinear_arith);
        lemma_frame_count(values.len(), capacity, 0);
        assert(per_frame == values.len());
        assert(i * per_frame == 0) by (nonlinear_arith)
            requires
                i == 0,
        ;
        assert(i * capacity == 0) by (nonlinear_arith)
            requires
                i == 0,
        ;
    } else {
        assert(per_frame == capacity);
        assert(1 * capacity == capacity) by (nonlinear_arith);
        assert(capacity < values.len());
        let c = per_frame / unit;
        vstd::arithmetic::div_mod::lemma_fundamental_div_mod(per_frame, unit);
        assert(per_frame * w == c * a) by (nonlinear_arith)
            requires
                per_frame == unit * c,
                a == w * unit,
        ;
        vstd::arithmetic::div_mod::lemma_mod_multiples_basic(c, a);
        assert((per_frame - values_per_frame) * w < a) by (nonlinear_arith)
            requires
                per_frame - values_per_frame < unit,
                a == w * unit,
                w > 0,
        ;
    }
    let part = values.subrange(i * per_frame, i * per_frame + held);
    assert forall|k: int| 0 <= k < part.len() implies (#[trigger] part[k]).len() == width by {
        assert(part[k] == values[i * per_frame + k]);
    }
    lemma_concat_uniform(part, width);
}

/// The frames of a column of byte strings decode to its values alone, nulls left out, each behind
/// its length, one behind the other and in the order of the rows. Every frame but the last holds as
/// many as asked for; where no number is asked for there is one frame.
pub proof fn law_var_bin_frames_hold_values(
    vbv: VarBinViewArray,
    values_per_frame: nat,
    data: Lz4Data,
    i: int,
)
    requires
        vbv.wf(),
        data.encodes_var_bin(vbv, values_per_frame),
        0 <= i < data.frames@.len(),
    ensures
        data.unsliced_n_rows == vbv.views@.len(),
        data.slice_start == 0,
        data.slice_stop == vbv.views@.len(),
        data.metadata@.len() == data.frames@.len(),
        ({
            let values = present(vbv.rows());
            let held = data.metadata@[i].n_values as int;
            let first = i * values_per_frame;
            &&& values_per_frame == 0 || values_per_frame >= values.len() ==> data.frames@.len()
                == 1 && held == values.len()
            &&& i + 1 < data.frames@.len() ==> held == values_per_frame
            &&& i + 1 == data.frames@.len() ==> held >= 1 && first + held == values.len()
            &&& 0 <= first
            &&& first + held <= values.len()
            &&& block_decoded(
                data.frames@[i]@,
                data.metadata@[i].uncompressed_size as nat,
            ) == Some(concat(all_prefixed(values.subrange(first, first + held))))
            &&& data.metadata@[i].uncompressed_size == concat(
                all_prefixed(values.subrange(first, first + held)),
            ).len()
        }),
{
    let values = present(vbv.rows());
    let parts = all_prefixed(values);
    let capacity = frame_capacity(values_per_frame, values.len(), 1);
    let frames = data.blocks();
    let metas = data.metadata@;
    assert(frames[i] == data.frames@[i]@);
    law_frames_hold_parts(frames, metas, parts, capacity, i);
    law_frame_capacity(values_per_frame, values.len(), 1, 0);
    let held = metas[i].n_values as int;
    lemma_frame_count(values.len(), capacity, i);
    lemma_frame_count(values.len(), capacity, 1);
    assert(1 * capacity == capacity) by (nonlinear_arith);
    if capacity == values.len() {
        assert(frames.len() <= 1);
        assert(i * values_per_frame == 0 && i * capacity == 0) by (nonlinear_arith)
            requires
                i == 0,
        ;
    } else {
        assert(capacity == values_per_frame);
    }
    let first = i * values_per_frame;
    assert(parts.subrange(first, first + held) =~= all_prefixed(
        values.subrange(first, first + held),
    ));
}

/// A column without a value has no frames, and one with a value has one at least.
pub proof fn law_no_values_no_frames(
    parray: PrimitiveArray,
    vbv: VarBinViewArray,
    values_per_frame: nat,
    data: Lz4Data,
)
    ensures
        data.encodes_primitive(parray, values_per_frame) ==> (data.frames@.len() == 0
            <==> present(parray.rows()).len() == 0),
        data.encodes_var_bin(vbv, values_per_frame) ==> (data.frames@.len() == 0
            <==> present(vbv.rows()).len() == 0),
{
    if data.encodes_primitive(parray, values_per_frame) {
        law_no_parts_no_frames(
            data.blocks(),
            data.metadata@,
            present(parray.rows()),
            frame_capacity(
                values_per_frame,
                present(parray.rows()).len(),
                parray.alignment as nat / parray.ptype.width(),
            ),
        );
    }
    if data.encodes_var_bin(vbv, values_per_frame) {
        law_no_parts_no_frames(
            data.blocks(),
            data.metadata@,
            all_prefixed(present(vbv.rows())),
            frame_capacity(values_per_frame, present(vbv.rows()).len(), 1),
        );
    }
}

/// What can be compressed: a column whose stored bytes, a tenth more, and twenty bytes on top, fit
/// the machine's integers.
pub proof fn law_encodable(parray: PrimitiveArray, vbv: VarBinViewArray)
    ensures
        ({
            let stored = concat(present(parray.rows())).len();
            primitive_encodable(parray) <==> parray.wf() && stored * 110 <= u64::MAX && 20 + stored
                * 110 / 100 <= usize::MAX
        }),
        ({
            let stored = concat(all_prefixed(present(vbv.rows()))).len();
            var_bin_encodable(vbv) <==> vbv.wf() && stored * 110 <= u64::MAX && 20 + stored * 110
                / 100 <= usize::MAX
        }),
{
}

/// A canonical column is compressed by its form, whichever way it is handed over, and a form that is
/// not stored is refused.
pub proof fn law_from_canonical_calls(
    canonical: Canonical,
    values_per_frame: usize,
    maybe: Result<Option<Lz4Data>, Lz4Error>,
    made: Result<Lz4Data, Lz4Error>,
)
    requires
        canonical_encodable(canonical),
        call_ensures(Lz4Data::from_canonical, (&canonical, values_per_frame), maybe),
        call_ensures(Lz4Data::from_array, (canonical, values_per_frame), made),
    ensures
        canonical is Other ==> maybe matches Ok(None),
        canonical is Other ==> made == Err::<Lz4Data, Lz4Error>(Lz4Error::UnsupportedArray),
        canonical matches Canonical::Primitive(parray) ==> {
            &&& maybe matches Ok(Some(d)) && d.encodes_primitive(parray, values_per_frame as nat)
            &&& made matches Ok(d) && d.encodes_primitive(parray, values_per_frame as nat)
        },
        canonical matches Canonical::VarBinView(vbv) ==> {
            &&& maybe matches Ok(Some(d)) && d.encodes_var_bin(vbv, values_per_frame as nat)
            &&& made matches Ok(d) && d.encodes_var_bin(vbv, values_per_frame as nat)
        },
{
}

/// What a hasher is fed by two encoded columns is the same exactly where they are equal.
pub proof fn law_hash_calls(
    a: Lz4Data,
    b: Lz4Data,
    equal: bool,
    fed_by_a: Vec<HashPart>,
    fed_by_b: Vec<HashPart>,
)
    requires
        call_ensures(Lz4Data::array_eq, (&a, &b), equal),
        call_ensures(Lz4Data::hash_parts, (&a,), fed_by_a),
        call_ensures(Lz4Data::hash_parts, (&b,), fed_by_b),
    ensures
        equal <==> hash_part_views(fed_by_a@) == hash_part_views(fed_by_b@),
        fed_by_a@.len() == a.frames@.len() + 3,
        fed_by_a@[a.frames@.len() as int] == HashPart::Number(a.unsliced_n_rows),
        fed_by_a@[a.frames@.len() as int + 1] == HashPart::Number(a.slice_start),
        fed_by_a@[a.frames@.len() as int + 2] == HashPart::Number(a.slice_stop),
{
    law_equal_columns_hash_alike(a, b);
}

/// Data that is made of frames is checked against an array of its own length by what it holds: the
/// type, the slice, the flags and the number of frames.
pub proof fn law_validate_calls(
    data: Lz4Data,
    dtype: DType,
    len: usize,
    validity: Validity,
    checked: Result<(), Lz4Error>,
)
    requires
        call_ensures(Lz4Data::validate, (&data, &dtype, len, &validity), checked),
    ensures
        checked is Ok <==> {
            &&& dtype !is Other
            &&& data.in_range()
            &&& data.slice_stop - data.slice_start == len
            &&& validity@.covers(data.unsliced_n_rows as nat)
            &&& data.frames@.len() == data.metadata.frames@.len()
        },
        dtype is Other ==> checked == Err::<(), Lz4Error>(Lz4Error::UnsupportedDType),
        dtype !is Other && data.slice_start > data.slice_stop ==> checked == Err::<(), Lz4Error>(
            Lz4Error::InvalidSliceRange { start: data.slice_start, stop: data.slice_stop },
        ),
        dtype !is Other && data.slice_start <= data.slice_stop && data.slice_stop
            > data.unsliced_n_rows ==> checked == Err::<(), Lz4Error>(
            Lz4Error::SliceStopExceedsRows {
                stop: data.slice_stop,
                n_rows: data.unsliced_n_rows,
            },
        ),
{
}

} // verus!
