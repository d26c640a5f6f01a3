//! Decompressing a slice of an encoded column.
//!
//! The frames hold the values of all rows that hold one. Of these, the frames that overlap a slice
//! are decompressed, and the slice is a window within what they decompress to:
//!
//! ```text
//! |================ values of the whole column =================|
//! |<--- skipped values --->|------ decompressed ------|
//!                              |----- slice -----|
//! ```

use crate::arrays::Decompressed;
use crate::arrays::PrimitiveArray;
use crate::arrays::VarBinViewArray;
use crate::buffer::buffer_bytes;
use crate::buffer::ByteBuffer;
use crate::bytes::concat;
use crate::bytes::parse_values;
use crate::codec::block_decoded;
use crate::codec::decodable;
use crate::codec::lengths_fit;
use crate::data::value_width;
use crate::data::Lz4Data;
use crate::dtype::DType;
use crate::error::Lz4Error;
use crate::plan::check_planned_lengths;
use crate::plan::decode_frames;
use crate::plan::fill_frames;
use crate::plan::law_needed_frames_overlap_slice;
use crate::plan::lemma_needed_ends;
use crate::plan::needed_frames;
use crate::plan::paired_frames;
use crate::plan::plan_fits;
use crate::plan::plan_frames;
use crate::plan::uncompressed_between;
use crate::plan::values_before;
use crate::plan::FrameOutcome;
use crate::plan::FramePlan;
use crate::rows::cell;
use crate::rows::law_scattered_bytes;
use crate::rows::lemma_scattered_rows;
use crate::rows::scattered_cells;
use crate::rows::spread;
use crate::rows::Rows;
use crate::validity::law_slice_slices_mask;
use crate::validity::law_valid_count_is_filter_len;
use crate::validity::lemma_valid_count_bounds;
use crate::validity::lemma_valid_count_constant;
use crate::validity::lemma_valid_count_subrange;
use crate::validity::valid_count;
use crate::validity::Validity;
use crate::validity::ValidityView;
use crate::views::checked_reconstruct_views;
use crate::views::law_segments_cover_stream;
use crate::views::law_views_resolve;
use crate::views::segments;
use crate::views::stream_views;
use crate::views::view_models;
use crate::views::viewable;
use crate::views::BinaryView;
use crate::views::BinaryViewModel;
use crate::views::MAX_BUFFER_LEN;
use vstd::prelude::*;

verus! {

/// Where the values of a slice stand in the stream that [`Lz4Data::decompress_var_bin_into`]
/// writes: they are the `n_values` values that follow the first `skip_values` values.
#[derive(Clone, Copy, Debug, PartialEq, Eq, Structural)]
pub struct VarBinDecompressed {
    /// Leading values in the buffer (from the head frame) that precede the slice.
    pub skip_values: usize,
    /// Values belonging to the slice.
    pub n_values: usize,
}

/// For each row the view of its value, and a view of zeros for a null.
pub open spec fn scattered_views(views: Seq<BinaryViewModel>, mask: Seq<bool>) -> Seq<
    BinaryViewModel,
> {
    Seq::new(
        mask.len(),
        |i: int|
            if mask[i] {
                views[valid_count(mask, i) as int]
            } else {
                BinaryViewModel::zeroed()
            },
    )
}

/// Whether a validity says of its rows, one by one or all at once, that none holds a value.
pub open spec fn no_row_valid(validity: ValidityView) -> bool {
    match validity {
        ValidityView::NonNullable | ValidityView::AllValid => false,
        ValidityView::AllInvalid => true,
        ValidityView::Array(flags) => valid_count(flags, flags.len() as int) == 0,
    }
}

/// Whether a column of this type can have this validity: a type that admits no null does not go
/// with a validity that could tell of one.
pub open spec fn validity_agrees(dtype: DType, validity: ValidityView) -> bool {
    dtype.nullable() || validity is NonNullable || validity is AllValid
}

/// The validity in the form that the type's nullability implies.
pub open spec fn normalized(dtype: DType, validity: ValidityView) -> ValidityView {
    if !dtype.nullable() {
        ValidityView::NonNullable
    } else if validity is NonNullable {
        ValidityView::AllValid
    } else {
        validity
    }
}

impl Lz4Data {
    /// The number of values before the slice.
    pub open spec fn values_to_start(self, validity: ValidityView) -> nat {
        valid_count(validity.mask(self.unsliced_n_rows as nat), self.slice_start as int)
    }

    /// The number of values before the end of the slice.
    pub open spec fn values_to_stop(self, validity: ValidityView) -> nat {
        valid_count(validity.mask(self.unsliced_n_rows as nat), self.slice_stop as int)
    }

    /// The frames `first..end` that the slice needs.
    pub open spec fn needed(self, width: nat, validity: ValidityView) -> (int, int) {
        needed_frames(
            self.metadata@,
            width,
            paired_frames(self.blocks().len(), self.metadata@.len()),
            self.values_to_start(validity),
            self.values_to_stop(validity),
        )
    }

    /// The number of values in the frames before the first that the slice needs.
    pub open spec fn skipped_values(self, width: nat, validity: ValidityView) -> nat {
        values_before(self.metadata@, width, self.needed(width, validity).0)
    }

    /// The uncompressed size of the frames that the slice needs.
    pub open spec fn needed_size(self, width: nat, validity: ValidityView) -> nat {
        let (first, end) = self.needed(width, validity);
        uncompressed_between(self.metadata@, first, end)
    }

    /// Whether every number on the way to the frames that the slice needs fits the machine's
    /// integers.
    pub open spec fn fits(self, width: nat, validity: ValidityView) -> bool {
        plan_fits(
            self.metadata@,
            width,
            paired_frames(self.blocks().len(), self.metadata@.len()),
            self.values_to_start(validity),
            self.values_to_stop(validity),
        )
    }

    /// Whether the lengths in the frames that the slice needs fit the machine's integers.
    ///
    /// They do where the frames are
    /// [short beside what a `usize` holds](crate::codec::law_short_blocks_fit).
    pub open spec fn frame_lengths_fit(self, width: nat, validity: ValidityView) -> bool {
        let (first, end) = self.needed(width, validity);
        forall|i: int|
            first <= i < end ==> lengths_fit(
                #[trigger] self.blocks()[i],
                self.metadata@[i].uncompressed_size as nat,
            )
    }

    /// Whether the frames that the slice needs can be handed to the codec.
    pub open spec fn frames_decodable(self, width: nat, validity: ValidityView) -> bool {
        let (first, end) = self.needed(width, validity);
        forall|i: int|
            first <= i < end ==> decodable(
                #[trigger] self.blocks()[i],
                self.metadata@[i].uncompressed_size as nat,
            )
    }

    /// What the frames that the slice needs decompress to.
    pub open spec fn outcome(self, width: nat, validity: ValidityView) -> FrameOutcome {
        let (first, end) = self.needed(width, validity);
        decode_frames(self.blocks(), self.metadata@, first, end)
    }

    /// The validity of the slice, in the form that the type's nullability implies.
    pub open spec fn slice_validity(self, dtype: DType, validity: ValidityView) -> ValidityView {
        normalized(dtype, validity.slice(self.slice_start as int, self.slice_stop as int))
    }

    /// One flag per row of the slice, set where the row holds a value.
    pub open spec fn slice_mask(self, dtype: DType, validity: ValidityView) -> Seq<bool> {
        self.slice_validity(dtype, validity).mask((self.slice_stop - self.slice_start) as nat)
    }

    /// Whether the slice can be taken from decompressed bytes that begin behind `skipped` values:
    /// the validity agrees with the type, and the bytes hold the slice's values.
    pub open spec fn assemblable(
        self,
        dtype: DType,
        validity: ValidityView,
        skipped: nat,
        bytes: Seq<u8>,
    ) -> bool {
        let stop = self.values_to_stop(validity) - skipped;
        &&& validity_agrees(dtype, validity)
        &&& match dtype {
            DType::Primitive(ptype, _) => stop * ptype.width() <= bytes.len(),
            DType::Utf8(_) | DType::Binary(_) => no_row_valid(self.slice_validity(dtype, validity))
                || (viewable(bytes, MAX_BUFFER_LEN as nat) && stop <= parse_values(
                bytes,
            )->0.len()),
            DType::Other(_) => false,
        }
    }

    /// Whether `array` is the slice, taken from decompressed bytes that begin behind `skipped`
    /// values.
    pub open spec fn assembled(
        self,
        dtype: DType,
        validity: ValidityView,
        skipped: nat,
        bytes: Seq<u8>,
        array: Decompressed,
    ) -> bool {
        let start = self.values_to_start(validity) - skipped;
        let stop = self.values_to_stop(validity) - skipped;
        let max = MAX_BUFFER_LEN as nat;
        match array {
            Decompressed::Primitive(parray) => {
                &&& dtype matches DType::Primitive(ptype, _) && ptype == parray.ptype
                &&& parray.len == self.slice_stop - self.slice_start
                &&& parray.validity@ == self.slice_validity(dtype, validity)
                &&& parray.alignment == parray.ptype.width()
                &&& parray.values@ == concat(
                    scattered_cells(
                        bytes.subrange(
                            start * parray.ptype.width(),
                            stop * parray.ptype.width(),
                        ),
                        self.slice_mask(dtype, validity),
                        parray.ptype.width(),
                    ),
                )
            },
            Decompressed::VarBinView(vbv) => {
                &&& dtype is Utf8 || dtype is Binary
                &&& !no_row_valid(self.slice_validity(dtype, validity))
                &&& vbv.dtype == dtype
                &&& vbv.validity@ == self.slice_validity(dtype, validity)
                &&& buffer_bytes(vbv.buffers@) == segments(bytes, parse_values(bytes)->0, max)
                &&& view_models(vbv.views@) == scattered_views(
                    stream_views(parse_values(bytes)->0, max).subrange(start, stop),
                    self.slice_mask(dtype, validity),
                )
            },
            Decompressed::Null { dtype: null_dtype, len } => {
                &&& dtype is Utf8 || dtype is Binary
                &&& no_row_valid(self.slice_validity(dtype, validity))
                &&& null_dtype == dtype
                &&& len == self.slice_stop - self.slice_start
            },
        }
    }

    /// The rows of the slice, taken from decompressed bytes that begin behind `skipped` values: the
    /// cells or the strings of the window, spread over the rows that hold a value.
    pub open spec fn assembled_rows(
        self,
        dtype: DType,
        validity: ValidityView,
        skipped: nat,
        bytes: Seq<u8>,
    ) -> Rows {
        let start = self.values_to_start(validity) - skipped;
        let stop = self.values_to_stop(validity) - skipped;
        let values = match dtype {
            DType::Primitive(ptype, _) => Seq::new(
                (stop - start) as nat,
                |k: int| cell(bytes, ptype.width(), start + k),
            ),
            _ => parse_values(bytes)->0.subrange(start, stop),
        };
        spread(values, self.slice_mask(dtype, validity))
    }

    /// Selects the frames that overlap the slice, without decompressing any, or returns `None`
    /// where a size or a count does not fit the machine's integers.
    pub fn plan_frames(&self, byte_width: usize, unsliced_validity: &Validity) -> (plan: Option<
        FramePlan,
    >)
        requires
            byte_width > 0,
            self.in_range(),
            unsliced_validity@.covers(self.unsliced_n_rows as nat),
        ensures
            plan is Some <==> self.fits(byte_width as nat, unsliced_validity@),
            plan matches Some(p) ==> {
                let needed = self.needed(byte_width as nat, unsliced_validity@);
                &&& (p.first as int, p.end as int) == needed
                &&& p.first <= p.end <= paired_frames(self.blocks().len(), self.metadata@.len())
                &&& p.total_uncompressed == self.needed_size(byte_width as nat, unsliced_validity@)
                &&& p.n_skipped_values == self.skipped_values(byte_width as nat, unsliced_validity@)
                &&& p.n_skipped_values <= self.values_to_start(unsliced_validity@)
            },
    {
        let slice_value_idx_start: usize = unsliced_validity.valid_count(
            self.unsliced_n_rows,
            self.slice_start,
        );
        let slice_value_idx_stop: usize = unsliced_validity.valid_count(
            self.unsliced_n_rows,
            self.slice_stop,
        );
        plan_frames(
            &self.frames,
            &self.metadata.frames,
            byte_width,
            slice_value_idx_start,
            slice_value_idx_stop,
        )
    }

    /// Whether the frames that overlap the slice are found, and the lengths in them fit the
    /// machine's integers.
    fn check_frame_lengths(&self, byte_width: usize, unsliced_validity: &Validity) -> (fit: bool)
        requires
            byte_width > 0,
            self.in_range(),
            unsliced_validity@.covers(self.unsliced_n_rows as nat),
        ensures
            fit == (self.fits(byte_width as nat, unsliced_validity@) && self.frame_lengths_fit(
                byte_width as nat,
                unsliced_validity@,
            )),
    {
        match self.plan_frames(byte_width, unsliced_validity) {
            None => false,
            Some(plan) => check_planned_lengths(&self.frames, &self.metadata.frames, &plan),
        }
    }

    /// Decompresses the frames that overlap the slice into `out`, and returns how many values the
    /// frames before them hold.
    fn decode(&self, byte_width: usize, unsliced_validity: &Validity, out: &mut Vec<u8>) -> (decoded:
        Option<Result<usize, Lz4Error>>)
        requires
            byte_width > 0,
            self.in_range(),
            unsliced_validity@.covers(self.unsliced_n_rows as nat),
            self.frames_decodable(byte_width as nat, unsliced_validity@),
        ensures
            self.fits(byte_width as nat, unsliced_validity@) ==> final(out)@.len()
                == self.needed_size(byte_width as nat, unsliced_validity@),
            match decoded {
                None => !self.fits(byte_width as nat, unsliced_validity@) || self.outcome(
                    byte_width as nat,
                    unsliced_validity@,
                ) is WrongSize,
                Some(Err(e)) => {
                    &&& e == Lz4Error::Decompress
                    &&& self.fits(byte_width as nat, unsliced_validity@)
                    &&& self.outcome(byte_width as nat, unsliced_validity@) is Malformed
                },
                Some(Ok(skipped)) => {
                    &&& self.fits(byte_width as nat, unsliced_validity@)
                    &&& self.outcome(byte_width as nat, unsliced_validity@) == FrameOutcome::Bytes(
                        final(out)@,
                    )
                    &&& skipped == self.skipped_values(byte_width as nat, unsliced_validity@)
                    &&& skipped <= self.values_to_start(unsliced_validity@)
                },
            },
    {
        let plan: FramePlan = match self.plan_frames(byte_width, unsliced_validity) {
            Some(plan) => plan,
            None => {
                return None;
            },
        };
        match fill_frames(&self.frames, &self.metadata.frames, &plan, out) {
            None => None,
            Some(Err(e)) => Some(Err(e)),
            Some(Ok(_)) => Some(Ok(plan.n_skipped_values)),
        }
    }

    /// The slice's validity marks the slice's rows, and there is a value for each marked row.
    pub proof fn lemma_slice_mask(self, dtype: DType, validity: ValidityView)
        requires
            self.in_range(),
            validity.covers(self.unsliced_n_rows as nat),
            validity_agrees(dtype, validity),
        ensures
            self.slice_validity(dtype, validity).covers(
                (self.slice_stop - self.slice_start) as nat,
            ),
            self.slice_mask(dtype, validity) == validity.mask(
                self.unsliced_n_rows as nat,
            ).subrange(self.slice_start as int, self.slice_stop as int),
            self.slice_mask(dtype, validity).len() == self.slice_stop - self.slice_start,
            self.values_to_start(validity) <= self.values_to_stop(validity),
            valid_count(
                self.slice_mask(dtype, validity),
                self.slice_stop - self.slice_start,
            ) == self.values_to_stop(validity) - self.values_to_start(validity),
    {
        let mask = validity.mask(self.unsliced_n_rows as nat);
        let start = self.slice_start as int;
        let stop = self.slice_stop as int;
        law_slice_slices_mask(validity, self.unsliced_n_rows as nat, start, stop);
        assert(self.slice_mask(dtype, validity) =~= mask.subrange(start, stop));
        lemma_valid_count_bounds(mask, start, stop);
        lemma_valid_count_subrange(mask, start, stop, stop - start);
    }

    /// Takes the slice from decompressed bytes that begin behind `n_skipped_values` values.
    ///
    /// The validity of what is returned is the one that the type's nullability implies. Returns
    /// `None` where the validity tells of nulls that the type does not admit, where the bytes do
    /// not hold the slice's values, and for a type that this encoding does not store.
    pub fn assemble(
        &self,
        dtype: &DType,
        unsliced_validity: &Validity,
        n_skipped_values: usize,
        decompressed: &ByteBuffer,
    ) -> (array: Option<Decompressed>)
        requires
            self.in_range(),
            unsliced_validity@.covers(self.unsliced_n_rows as nat),
            n_skipped_values <= self.values_to_start(unsliced_validity@),
        ensures
            array is Some <==> self.assemblable(
                *dtype,
                unsliced_validity@,
                n_skipped_values as nat,
                decompressed@,
            ),
            array matches Some(a) ==> {
                &&& a.wf()
                &&& a.dtype_spec() == dtype
                &&& a.rows() == self.assembled_rows(
                    *dtype,
                    unsliced_validity@,
                    n_skipped_values as nat,
                    decompressed@,
                )
                &&& self.assembled(
                    *dtype,
                    unsliced_validity@,
                    n_skipped_values as nat,
                    decompressed@,
                    a,
                )
            },
    {
        let slice_n_rows: usize = self.slice_stop - self.slice_start;
        let sliced: Validity = unsliced_validity.slice(self.slice_start, self.slice_stop);
        let slice_validity: Validity = match normalize_validity(dtype, sliced) {
            Some(validity) => validity,
            None => {
                return None;
            },
        };
        proof {
            self.lemma_slice_mask(*dtype, unsliced_validity@);
        }
        let start: usize = unsliced_validity.valid_count(self.unsliced_n_rows, self.slice_start)
            - n_skipped_values;
        let stop: usize = unsliced_validity.valid_count(self.unsliced_n_rows, self.slice_stop)
            - n_skipped_values;
        match dtype {
            DType::Primitive(ptype, _) => {
                let byte_width: usize = ptype.byte_width();
                proof {
                    lemma_fits_by_division(stop as int, byte_width as int, decompressed@.len() as int);
                }
                if stop > decompressed.len() / byte_width {
                    return None;
                }
                proof {
                    lemma_window(start as int, stop as int, byte_width as int);
                }
                let slice_values: ByteBuffer = decompressed.slice(
                    start * byte_width,
                    stop * byte_width,
                );
                let parray = PrimitiveArray::from_values_byte_buffer(
                    slice_values,
                    *ptype,
                    slice_validity,
                    slice_n_rows,
                );
                proof {
                    lemma_window_cells(
                        decompressed@,
                        start as int,
                        stop as int,
                        self.slice_mask(*dtype, unsliced_validity@),
                        byte_width as nat,
                    );
                    assert(parray.rows() =~= self.assembled_rows(
                        *dtype,
                        unsliced_validity@,
                        n_skipped_values as nat,
                        decompressed@,
                    ));
                }
                Some(Decompressed::Primitive(parray))
            },
            DType::Utf8(_) | DType::Binary(_) => {
                let ghost mask = self.slice_mask(*dtype, unsliced_validity@);
                let ghost rows = self.assembled_rows(
                    *dtype,
                    unsliced_validity@,
                    n_skipped_values as nat,
                    decompressed@,
                );
                if is_no_row_valid(&slice_validity) {
                    let nulls = Decompressed::Null { dtype: *dtype, len: slice_n_rows };
                    proof {
                        if slice_validity@ is AllInvalid {
                            lemma_valid_count_constant(mask, mask.len() as int, false);
                        }
                        lemma_none_valid(mask);
                        assert(nulls.rows() =~= rows);
                    }
                    return Some(nulls);
                }
                let (buffers, all_views) = match checked_reconstruct_views(
                    decompressed,
                    MAX_BUFFER_LEN,
                ) {
                    Some(parts) => parts,
                    None => {
                        return None;
                    },
                };
                let ghost max = MAX_BUFFER_LEN as nat;
                let ghost models = stream_views(parse_values(decompressed@)->0, max);
                assert(all_views@.len() == view_models(all_views@).len());
                if stop > all_views.len() {
                    return None;
                }
                let flags: Vec<bool> = slice_validity.execute_mask(slice_n_rows);
                let views: Vec<BinaryView> = scatter_views(&all_views, start, stop, &flags);
                let vbv = VarBinViewArray {
                    views,
                    buffers,
                    dtype: *dtype,
                    validity: slice_validity,
                };
                proof {
                    lemma_window_views(decompressed@, start as int, stop as int, mask);
                    assert(vbv.views@.len() == view_models(vbv.views@).len());
                    assert forall|i: int| 0 <= i < mask.len() implies (#[trigger] vbv.views@[i])@
                        == scattered_views(models.subrange(start as int, stop as int), mask)[i] by {
                        assert(view_models(vbv.views@)[i] == vbv.views@[i]@);
                    }
                    assert(vbv.rows() =~= rows);
                }
                Some(Decompressed::VarBinView(vbv))
            },
            DType::Other(_) => None,
        }
    }

    /// Whether the slice can be decompressed or is found malformed by the codec: every number on
    /// the way fits the machine's integers, the codec can be handed the frames, no frame decodes to another size than its metadata
    /// says, and the slice can be taken from what the frames decode to.
    pub open spec fn decompressible(self, dtype: DType, validity: ValidityView) -> bool {
        let width = value_width(dtype);
        &&& self.fits(width, validity)
        &&& self.frames_decodable(width, validity)
        &&& match self.outcome(width, validity) {
            FrameOutcome::Bytes(bytes) => self.assemblable(
                dtype,
                validity,
                self.skipped_values(width, validity),
                bytes,
            ),
            FrameOutcome::Malformed => true,
            FrameOutcome::WrongSize => false,
        }
    }

    /// The rows of the slice, as its frames hold them.
    pub open spec fn rows(self, dtype: DType, validity: ValidityView) -> Rows {
        let width = value_width(dtype);
        self.assembled_rows(
            dtype,
            validity,
            self.skipped_values(width, validity),
            self.outcome(width, validity)->Bytes_0,
        )
    }

    /// There are as many rows as the slice has.
    pub proof fn lemma_rows_len(self, dtype: DType, validity: ValidityView)
        requires
            self.in_range(),
            validity.covers(self.unsliced_n_rows as nat),
        ensures
            self.rows(dtype, validity).len() == self.slice_stop - self.slice_start,
    {
    }

    /// Encoded columns with the same frames that mean the same slice decompress to the same.
    pub proof fn lemma_same(self, other: Lz4Data, dtype: DType, validity: ValidityView)
        requires
            self.same(other),
        ensures
            self.decompressible(dtype, validity) == other.decompressible(dtype, validity),
            self.frame_lengths_fit(value_width(dtype), validity) == other.frame_lengths_fit(
                value_width(dtype),
                validity,
            ),
            self.outcome(value_width(dtype), validity) == other.outcome(
                value_width(dtype),
                validity,
            ),
            self.rows(dtype, validity) == other.rows(dtype, validity),
    {
    }

    /// Whether `array` is what the slice decompresses to.
    pub open spec fn decompresses_to(
        self,
        dtype: DType,
        validity: ValidityView,
        array: Decompressed,
    ) -> bool {
        let width = value_width(dtype);
        &&& self.outcome(width, validity) matches FrameOutcome::Bytes(bytes)
        &&& self.assembled(dtype, validity, self.skipped_values(width, validity), bytes, array)
    }

    /// Whether the slice is [decompressible](Lz4Data::decompressible) and the lengths in its frames
    /// [fit](Lz4Data::frame_lengths_fit), found by decompressing it.
    pub fn is_decompressible(&self, dtype: &DType, unsliced_validity: &Validity) -> (possible: bool)
        requires
            self.in_range(),
            unsliced_validity@.covers(self.unsliced_n_rows as nat),
        ensures
            possible == (self.decompressible(*dtype, unsliced_validity@) && self.frame_lengths_fit(
                value_width(*dtype),
                unsliced_validity@,
            )),
    {
        if !self.check_frame_lengths(Lz4Data::byte_width(dtype), unsliced_validity) {
            return false;
        }
        let mut bytes: Vec<u8> = Vec::new();
        match self.decode(Lz4Data::byte_width(dtype), unsliced_validity, &mut bytes) {
            None => false,
            Some(Err(_)) => true,
            Some(Ok(n_skipped_values)) => self.assemble(
                dtype,
                unsliced_validity,
                n_skipped_values,
                &ByteBuffer::new(bytes),
            ).is_some(),
        }
    }

    /// Decompresses the slice.
    ///
    /// # Errors
    ///
    /// Returns [`Lz4Error::Decompress`] where the codec finds a frame malformed.
    pub fn decompress(&self, dtype: &DType, unsliced_validity: &Validity) -> (array: Result<
        Decompressed,
        Lz4Error,
    >)
        requires
            self.in_range(),
            unsliced_validity@.covers(self.unsliced_n_rows as nat),
            self.decompressible(*dtype, unsliced_validity@),
        ensures
            match array {
                Ok(a) => {
                    &&& a.wf()
                    &&& a.dtype_spec() == dtype
                    &&& a.rows() == self.rows(*dtype, unsliced_validity@)
                    &&& self.decompresses_to(*dtype, unsliced_validity@, a)
                },
                Err(e) => {
                    &&& e == Lz4Error::Decompress
                    &&& self.outcome(value_width(*dtype), unsliced_validity@) is Malformed
                },
            },
    {
        let mut bytes: Vec<u8> = Vec::new();
        let decoded = self.decode(Lz4Data::byte_width(dtype), unsliced_validity, &mut bytes);
        match decoded.unwrap() {
            Err(e) => Err(e),
            Ok(n_skipped_values) => Ok(
                self.assemble(
                    dtype,
                    unsliced_validity,
                    n_skipped_values,
                    &ByteBuffer::new(bytes),
                ).unwrap(),
            ),
        }
    }

    /// Whether the frames of a column of byte strings can be decompressed for the slice, or are
    /// found malformed by the codec.
    pub open spec fn var_bin_decompressible(self, validity: ValidityView) -> bool {
        &&& self.fits(1, validity)
        &&& self.frames_decodable(1, validity)
        &&& self.outcome(1, validity) !is WrongSize
    }

    /// Whether `stream` is what the frames that the slice needs decompress to, and `window` tells
    /// which of its values belong to the slice.
    pub open spec fn is_var_bin_window(
        self,
        validity: ValidityView,
        stream: Seq<u8>,
        window: VarBinDecompressed,
    ) -> bool {
        &&& self.outcome(1, validity) == FrameOutcome::Bytes(stream)
        &&& window.skip_values == self.values_to_start(validity) - self.skipped_values(1, validity)
        &&& window.n_values == self.values_to_stop(validity) - self.values_to_start(validity)
    }

    /// Whether the slice is [decompressible](Lz4Data::var_bin_decompressible) as byte strings and
    /// the lengths in its frames [fit](Lz4Data::frame_lengths_fit), found by decompressing it.
    pub fn is_var_bin_decompressible(&self, unsliced_validity: &Validity) -> (possible: bool)
        requires
            self.in_range(),
            unsliced_validity@.covers(self.unsliced_n_rows as nat),
        ensures
            possible == (self.var_bin_decompressible(unsliced_validity@) && self.frame_lengths_fit(
                1,
                unsliced_validity@,
            )),
    {
        if !self.check_frame_lengths(1, unsliced_validity) {
            return false;
        }
        let mut bytes: Vec<u8> = Vec::new();
        self.decode(1, unsliced_validity, &mut bytes).is_some()
    }

    /// Decompresses the frames that overlap the slice of a column of byte strings straight into
    /// `out`, in place of what it held: each value behind its length as a little-endian `u32`, as
    /// [`reconstruct_views`](crate::views::reconstruct_views) reads them.
    ///
    /// Nulls are not stored, so `out` holds the values only; the window that is returned tells
    /// which of them belong to the slice. After an error the bytes in `out` mean nothing.
    ///
    /// # Errors
    ///
    /// Returns [`Lz4Error::Decompress`] where the codec finds a frame malformed.
    pub fn decompress_var_bin_into(&self, unsliced_validity: &Validity, out: &mut Vec<u8>) -> (window:
        Result<VarBinDecompressed, Lz4Error>)
        requires
            self.in_range(),
            unsliced_validity@.covers(self.unsliced_n_rows as nat),
            self.var_bin_decompressible(unsliced_validity@),
        ensures
            final(out)@.len() == self.needed_size(1, unsliced_validity@),
            match window {
                Ok(w) => {
                    &&& self.is_var_bin_window(unsliced_validity@, final(out)@, w)
                    &&& w.n_values == unsliced_validity@.mask(
                        self.unsliced_n_rows as nat,
                    ).subrange(self.slice_start as int, self.slice_stop as int).filter(
                        |flag: bool| flag,
                    ).len()
                },
                Err(e) => {
                    &&& e == Lz4Error::Decompress
                    &&& self.outcome(1, unsliced_validity@) is Malformed
                },
            },
    {
        let decoded = self.decode(1, unsliced_validity, out);
        match decoded.unwrap() {
            Err(e) => Err(e),
            Ok(n_skipped_values) => {
                let start: usize = unsliced_validity.valid_count(
                    self.unsliced_n_rows,
                    self.slice_start,
                );
                let stop: usize = unsliced_validity.valid_count(
                    self.unsliced_n_rows,
                    self.slice_stop,
                );
                proof {
                    lemma_valid_count_bounds(
                        unsliced_validity@.mask(self.unsliced_n_rows as nat),
                        self.slice_start as int,
                        self.slice_stop as int,
                    );
                }
                let window = VarBinDecompressed {
                    skip_values: start - n_skipped_values,
                    n_values: stop - start,
                };
                proof {
                    law_window_counts_rows(*self, unsliced_validity@, out@, window);
                }
                Ok(window)
            },
        }
    }
}

/// The validity in the form that the type's nullability implies, or `None` where it could tell of
/// a null that the type does not admit.
fn normalize_validity(dtype: &DType, validity: Validity) -> (normal: Option<Validity>)
    ensures
        normal is Some <==> validity_agrees(*dtype, validity@),
        normal matches Some(v) ==> v@ == normalized(*dtype, validity@),
{
    if dtype.is_nullable() {
        match validity {
            Validity::NonNullable => Some(Validity::AllValid),
            other => Some(other),
        }
    } else {
        match validity {
            Validity::NonNullable | Validity::AllValid => Some(Validity::NonNullable),
            _ => None,
        }
    }
}

/// Whether a validity says of its rows, one by one or all at once, that none holds a value.
fn is_no_row_valid(validity: &Validity) -> (none: bool)
    ensures
        none == no_row_valid(validity@),
{
    match validity {
        Validity::NonNullable | Validity::AllValid => false,
        Validity::AllInvalid => true,
        Validity::Array(flags) => validity.valid_count(flags.len(), flags.len()) == 0,
    }
}

/// For each row the view of its value, of those in `start..stop`, and a view of zeros for a null.
fn scatter_views(views: &Vec<BinaryView>, start: usize, stop: usize, flags: &Vec<bool>) -> (scattered:
    Vec<BinaryView>)
    requires
        start <= stop <= views@.len(),
        valid_count(flags@, flags@.len() as int) == stop - start,
    ensures
        view_models(scattered@) == scattered_views(
            view_models(views@).subrange(start as int, stop as int),
            flags@,
        ),
{
    let ghost window = view_models(views@).subrange(start as int, stop as int);
    let mut scattered: Vec<BinaryView> = Vec::new();
    let mut used: usize = 0;
    let mut i: usize = 0;
    while i < flags.len()
        invariant
            start <= stop <= views@.len(),
            window == view_models(views@).subrange(start as int, stop as int),
            valid_count(flags@, flags@.len() as int) == stop - start,
            i <= flags@.len(),
            used == valid_count(flags@, i as int),
            scattered@.len() == i,
            forall|k: int|
                0 <= k < i ==> (#[trigger] scattered@[k])@ == scattered_views(window, flags@)[k],
        decreases flags@.len() - i,
    {
        proof {
            lemma_valid_count_bounds(flags@, i + 1, flags@.len() as int);
        }
        if flags[i] {
            scattered.push(views[start + used]);
            used += 1;
        } else {
            scattered.push(BinaryView::zeroed());
        }
        i += 1;
    }
    assert(view_models(scattered@) =~= scattered_views(window, flags@));
    scattered
}

/// A number of cells fits where it is at most the number of whole cells.
proof fn lemma_fits_by_division(n: int, width: int, len: int)
    requires
        n >= 0,
        width > 0,
        len >= 0,
    ensures
        n * width <= len <==> n <= len / width,
{
    vstd::arithmetic::div_mod::lemma_fundamental_div_mod(len, width);
    vstd::arithmetic::div_mod::lemma_mod_bound(len, width);
    let q = len / width;
    if n <= q {
        assert(n * width <= width * q) by (nonlinear_arith)
            requires
                n <= q,
                width > 0,
        ;
    } else {
        assert(n * width >= width * q + width) by (nonlinear_arith)
            requires
                n >= q + 1,
                width > 0,
        ;
    }
}

/// Where no flag is set, none is.
proof fn lemma_none_valid(mask: Seq<bool>)
    requires
        valid_count(mask, mask.len() as int) == 0,
    ensures
        forall|i: int| 0 <= i < mask.len() ==> !#[trigger] mask[i],
{
    assert forall|i: int| 0 <= i < mask.len() implies !#[trigger] mask[i] by {
        lemma_valid_count_bounds(mask, 0, i);
        lemma_valid_count_bounds(mask, i + 1, mask.len() as int);
    }
}

/// The cells of a window, scattered over the rows, are the cells behind the window's start.
proof fn lemma_window_cells(bytes: Seq<u8>, start: int, stop: int, mask: Seq<bool>, width: nat)
    requires
        0 <= start <= stop,
        width > 0,
        stop * width <= bytes.len(),
        valid_count(mask, mask.len() as int) == stop - start,
    ensures
        forall|i: int|
            0 <= i < mask.len() && mask[i] ==> #[trigger] cell(
                concat(
                    scattered_cells(
                        bytes.subrange(start * width, stop * width),
                        mask,
                        width,
                    ),
                ),
                width,
                i,
            ) == cell(bytes, width, start + valid_count(mask, i)),
        forall|i: int|
            0 <= i < mask.len() && mask[i] ==> #[trigger] valid_count(mask, i) < stop - start,
{
    let packed = bytes.subrange(start * width, stop * width);
    lemma_window(start, stop, width as int);
    lemma_scattered_rows(packed, mask, width);
    assert forall|i: int| 0 <= i < mask.len() && mask[i] implies #[trigger] valid_count(mask, i)
        < stop - start by {
        lemma_valid_count_bounds(mask, i + 1, mask.len() as int);
    }
    assert forall|i: int| 0 <= i < mask.len() && mask[i] implies #[trigger] cell(
        concat(scattered_cells(packed, mask, width)),
        width,
        i,
    ) == cell(bytes, width, start + valid_count(mask, i)) by {
        let k = valid_count(mask, i) as int;
        lemma_valid_count_bounds(mask, i + 1, mask.len() as int);
        lemma_window_cell(start, stop, k, width as int);
        assert(cell(packed, width, k) =~= cell(bytes, width, start + k));
    }
}

/// The views of a window, scattered over the rows, describe the values behind the window's start.
proof fn lemma_window_views(bytes: Seq<u8>, start: int, stop: int, mask: Seq<bool>)
    requires
        parse_values(bytes) is Some,
        0 <= start <= stop <= parse_values(bytes)->0.len(),
        valid_count(mask, mask.len() as int) == stop - start,
    ensures
        ({
            let values = parse_values(bytes)->0;
            let max = MAX_BUFFER_LEN as nat;
            let all = segments(bytes, values, max);
            let views = scattered_views(stream_views(values, max).subrange(start, stop), mask);
            forall|i: int|
                0 <= i < mask.len() && mask[i] ==> {
                    &&& (#[trigger] views[i]).in_bounds(all)
                    &&& views[i].value(all) == values.subrange(start, stop)[valid_count(
                        mask,
                        i,
                    ) as int]
                }
        }),
{
    let values = parse_values(bytes)->0;
    let max = MAX_BUFFER_LEN as nat;
    let all = segments(bytes, values, max);
    let views = scattered_views(stream_views(values, max).subrange(start, stop), mask);
    assert forall|i: int| 0 <= i < mask.len() && mask[i] implies {
        &&& (#[trigger] views[i]).in_bounds(all)
        &&& views[i].value(all) == values.subrange(start, stop)[valid_count(mask, i) as int]
    } by {
        let k = valid_count(mask, i) as int;
        lemma_valid_count_bounds(mask, i + 1, mask.len() as int);
        law_views_resolve(bytes, max, start + k);
        assert(views[i] == stream_views(values, max)[start + k]);
    }
}

/// A cell within a window of cells.
proof fn lemma_window_cell(start: int, stop: int, k: int, width: int)
    requires
        0 <= start,
        0 <= k < stop - start,
        width > 0,
    ensures
        0 <= k * width,
        k * width + width <= stop * width - start * width,
        start * width + k * width == (start + k) * width,
{
    assert(0 <= k * width && k * width + width <= stop * width - start * width
        && start * width + k * width == (start + k) * width) by (nonlinear_arith)
        requires
            0 <= k < stop - start,
            width > 0,
    ;
}

/// The bytes of a window of cells.
proof fn lemma_window(start: int, stop: int, width: int)
    requires
        0 <= start <= stop,
        width > 0,
    ensures
        0 <= start * width <= stop * width,
        (stop - start) * width == stop * width - start * width,
{
    assert(0 <= start * width <= stop * width) by (nonlinear_arith)
        requires
            0 <= start <= stop,
            width > 0,
    ;
    assert((stop - start) * width == stop * width - start * width) by (nonlinear_arith);
}

/// A validity goes with a type that admits nulls, whatever it says, and with one that admits none
/// where it says that there are none.
pub proof fn law_validity_agrees(dtype: DType, validity: ValidityView)
    ensures
        dtype.nullable() ==> validity_agrees(dtype, validity),
        validity is NonNullable || validity is AllValid ==> validity_agrees(dtype, validity),
        !dtype.nullable() && (validity is AllInvalid || validity is Array) ==> !validity_agrees(
            dtype,
            validity,
        ),
{
}

/// The validity that a type's nullability implies has the type's nullability and marks the same
/// rows.
pub proof fn law_normalized(dtype: DType, validity: ValidityView, len: nat)
    requires
        validity_agrees(dtype, validity),
        validity.covers(len),
    ensures
        normalized(dtype, validity).nullability() == dtype.nullability_spec(),
        normalized(dtype, validity).covers(len),
        normalized(dtype, validity).mask(len) == validity.mask(len),
{
    assert(normalized(dtype, validity).mask(len) =~= validity.mask(len));
}

/// A validity that is found to mark no row marks none, and one that marks none of some rows is found
/// to.
pub proof fn law_no_row_valid(validity: ValidityView, len: nat)
    requires
        validity.covers(len),
        len > 0,
    ensures
        no_row_valid(validity) <==> forall|i: int| 0 <= i < len ==> !#[trigger] validity.mask(len)[i],
        no_row_valid(ValidityView::AllInvalid),
        no_row_valid(ValidityView::Array(Seq::empty())),
        !no_row_valid(ValidityView::NonNullable),
        !no_row_valid(ValidityView::AllValid),
{
    let mask = validity.mask(len);
    if no_row_valid(validity) {
        if validity is AllInvalid {
            lemma_valid_count_constant(mask, len as int, false);
        }
        lemma_none_valid(mask);
    }
    if forall|i: int| 0 <= i < len ==> !#[trigger] mask[i] {
        lemma_valid_count_constant(mask, len as int, false);
        assert(!mask[0]);
    }
}

/// The views of rows, where those that a mask sets are given views in their order: a set row has the
/// view behind as many others as there are set rows before it, and any other row the view of an
/// empty value.
pub proof fn law_scattered_views(views: Seq<BinaryViewModel>, mask: Seq<bool>, i: int)
    requires
        0 <= i < mask.len(),
    ensures
        scattered_views(views, mask).len() == mask.len(),
        mask[i] ==> scattered_views(views, mask)[i] == views[valid_count(mask, i) as int],
        !mask[i] ==> (scattered_views(views, mask)[i] matches BinaryViewModel::Inlined {
            size,
            data,
        } && size == 0 && data.len() == 12 && forall|k: int|
            0 <= k < 12 ==> #[trigger] data[k] == 0),
{
}

/// The rows that a slice decompresses to: as many as the slice has, each null exactly where the
/// validity says so.
pub proof fn law_rows_follow_validity(data: Lz4Data, dtype: DType, validity: ValidityView, r: int)
    requires
        data.in_range(),
        validity.covers(data.unsliced_n_rows as nat),
        validity_agrees(dtype, validity),
        0 <= r < data.slice_stop - data.slice_start,
    ensures
        data.rows(dtype, validity).len() == data.slice_stop - data.slice_start,
        data.rows(dtype, validity)[r] is None <==> !validity.mask(
            data.unsliced_n_rows as nat,
        )[data.slice_start + r],
{
    data.lemma_slice_mask(dtype, validity);
}

/// The values before a slice and before its end are as many as the validity marks rows there.
pub proof fn law_values_to_slice(data: Lz4Data, validity: ValidityView)
    requires
        data.in_range(),
        validity.covers(data.unsliced_n_rows as nat),
    ensures
        data.values_to_start(validity) == validity.mask(data.unsliced_n_rows as nat).take(
            data.slice_start as int,
        ).filter(|flag: bool| flag).len(),
        data.values_to_stop(validity) == validity.mask(data.unsliced_n_rows as nat).take(
            data.slice_stop as int,
        ).filter(|flag: bool| flag).len(),
{
    let mask = validity.mask(data.unsliced_n_rows as nat);
    law_valid_count_is_filter_len(mask, data.slice_start as int);
    law_valid_count_is_filter_len(mask, data.slice_stop as int);
}

/// A slice lies within its column where its start is not behind its end, and its end not behind the
/// column's last row.
pub proof fn law_in_range(data: Lz4Data)
    ensures
        data.in_range() <==> data.slice_start <= data.slice_stop && data.slice_stop
            <= data.unsliced_n_rows,
{
}

/// The frames that are decompressed for a slice are those that overlap its values: the frames that
/// have metadata, begin before the slice's values end, and end behind the place where they begin.
/// What is skipped are the values of the frames before the first of those.
pub proof fn law_needed_frames(data: Lz4Data, width: nat, validity: ValidityView, i: int)
    requires
        0 <= i < data.frames@.len(),
        i < data.metadata@.len(),
    ensures
        ({
            let (first, end) = data.needed(width, validity);
            let metas = data.metadata@;
            &&& 0 <= first <= end
            &&& end <= data.frames@.len()
            &&& end <= metas.len()
            &&& first <= i < end <==> {
                &&& values_before(metas, width, i) < data.values_to_stop(validity)
                &&& data.values_to_start(validity) < values_before(metas, width, i + 1)
            }
            &&& data.skipped_values(width, validity) == values_before(metas, width, first)
            &&& data.skipped_values(width, validity) <= data.values_to_start(validity)
            &&& data.needed_size(width, validity) == uncompressed_between(metas, first, end)
            &&& data.outcome(width, validity) == decode_frames(data.blocks(), metas, first, end)
        }),
{
    let n = paired_frames(data.blocks().len(), data.metadata@.len());
    law_needed_frames_overlap_slice(
        data.metadata@,
        width,
        n,
        data.values_to_start(validity),
        data.values_to_stop(validity),
        i,
    );
    lemma_needed_ends(
        data.metadata@,
        width,
        n,
        data.values_to_start(validity),
        data.values_to_stop(validity),
    );
}

/// The values that are skipped come before the slice.
proof fn lemma_skipped_before_slice(data: Lz4Data, width: nat, validity: ValidityView)
    ensures
        data.skipped_values(width, validity) <= data.values_to_start(validity),
{
    lemma_needed_ends(
        data.metadata@,
        width,
        paired_frames(data.blocks().len(), data.metadata@.len()),
        data.values_to_start(validity),
        data.values_to_stop(validity),
    );
}

/// Frames that decode without an error decode to as many bytes as their metadata says.
pub proof fn law_outcome_size(data: Lz4Data, width: nat, validity: ValidityView)
    ensures
        data.outcome(width, validity) matches FrameOutcome::Bytes(bytes) ==> bytes.len()
            == data.needed_size(width, validity),
{
    let (first, end) = data.needed(width, validity);
    lemma_decoded_size(data, first, end);
}

proof fn lemma_decoded_size(data: Lz4Data, from: int, to: int)
    ensures
        decode_frames(data.blocks(), data.metadata@, from, to) matches FrameOutcome::Bytes(bytes)
            ==> bytes.len() == uncompressed_between(data.metadata@, from, to),
    decreases to - from,
{
    if from < to {
        lemma_decoded_size(data, from, to - 1);
    }
}

/// The value of a row stands in decompressed bytes behind as many others as there are rows with a
/// value before it in the column, less those that were skipped: whatever the bytes hold. It is the
/// cell at that place, or the byte string that stands there behind its length. A row that holds no
/// value is null.
pub proof fn law_assembled_row(
    data: Lz4Data,
    dtype: DType,
    validity: ValidityView,
    skipped: nat,
    bytes: Seq<u8>,
    r: int,
)
    requires
        data.in_range(),
        validity.covers(data.unsliced_n_rows as nat),
        skipped <= data.values_to_start(validity),
        data.assemblable(dtype, validity, skipped, bytes),
        0 <= r < data.slice_stop - data.slice_start,
    ensures
        ({
            let mask = validity.mask(data.unsliced_n_rows as nat);
            let row = data.assembled_rows(dtype, validity, skipped, bytes)[r];
            let k = valid_count(mask, data.slice_start + r) - skipped;
            &&& data.assembled_rows(dtype, validity, skipped, bytes).len() == data.slice_stop
                - data.slice_start
            &&& !mask[data.slice_start + r] ==> row is None
            &&& mask[data.slice_start + r] ==> match dtype {
                DType::Primitive(ptype, _) => {
                    &&& 0 <= k * ptype.width() <= k * ptype.width() + ptype.width() <= bytes.len()
                    &&& row == Some(
                        bytes.subrange(k * ptype.width(), k * ptype.width() + ptype.width()),
                    )
                },
                _ => parse_values(bytes) matches Some(values) && 0 <= k < values.len() && row
                    == Some(values[k]),
            }
        }),
{
    let all = validity.mask(data.unsliced_n_rows as nat);
    let mask = data.slice_mask(dtype, validity);
    data.lemma_slice_mask(dtype, validity);
    assert(mask[r] == all[data.slice_start + r]);
    if mask[r] {
        lemma_valid_count_subrange(all, data.slice_start as int, data.slice_stop as int, r);
        lemma_valid_count_bounds(mask, 0, r);
        lemma_valid_count_bounds(mask, r + 1, mask.len() as int);
        let k = valid_count(all, data.slice_start + r) - skipped;
        let stop = data.values_to_stop(validity) - skipped;
        if let DType::Primitive(ptype, _) = dtype {
            crate::rows::lemma_cell_bounds(k, stop, ptype.width());
        } else if no_row_valid(data.slice_validity(dtype, validity)) {
            if data.slice_validity(dtype, validity) is AllInvalid {
                lemma_valid_count_constant(mask, mask.len() as int, false);
            }
            lemma_none_valid(mask);
        }
    }
}

/// The rows of a slice are taken from what the frames that it needs decode to, less the values of
/// the frames before them.
pub proof fn law_row_is_window_value(data: Lz4Data, dtype: DType, validity: ValidityView, r: int)
    requires
        data.in_range(),
        validity.covers(data.unsliced_n_rows as nat),
        data.decompressible(dtype, validity),
        data.outcome(value_width(dtype), validity) is Bytes,
        0 <= r < data.slice_stop - data.slice_start,
        validity.mask(data.unsliced_n_rows as nat)[data.slice_start + r],
    ensures
        ({
            let bytes = data.outcome(value_width(dtype), validity)->Bytes_0;
            let k = valid_count(
                validity.mask(data.unsliced_n_rows as nat),
                data.slice_start + r,
            ) - data.skipped_values(value_width(dtype), validity);
            let row = data.rows(dtype, validity)[r];
            match dtype {
                DType::Primitive(ptype, _) => {
                    &&& 0 <= k * ptype.width() <= k * ptype.width() + ptype.width() <= bytes.len()
                    &&& row == Some(
                        bytes.subrange(k * ptype.width(), k * ptype.width() + ptype.width()),
                    )
                },
                _ => parse_values(bytes) matches Some(values) && 0 <= k < values.len() && row
                    == Some(values[k]),
            }
        }),
{
    let width = value_width(dtype);
    lemma_skipped_before_slice(data, width, validity);
    law_assembled_row(
        data,
        dtype,
        validity,
        data.skipped_values(width, validity),
        data.outcome(width, validity)->Bytes_0,
        r,
    );
}

/// When a slice can be taken from decompressed bytes: where the validity goes with the type and the
/// type is stored, and the bytes hold the slice's values. Cells of fixed width must reach the end of
/// the last; byte strings must be there, each with a place that fits a view, unless no row of the
/// slice holds a value.
pub proof fn law_assemblable(
    data: Lz4Data,
    dtype: DType,
    validity: ValidityView,
    skipped: nat,
    bytes: Seq<u8>,
)
    ensures
        ({
            let stop = data.values_to_stop(validity) - skipped;
            let possible = data.assemblable(dtype, validity, skipped, bytes);
            &&& !validity_agrees(dtype, validity) || dtype is Other ==> !possible
            &&& validity_agrees(dtype, validity) && (dtype matches DType::Primitive(ptype, _) && stop
                * ptype.width() <= bytes.len()) ==> possible
            &&& (dtype matches DType::Primitive(ptype, _) && stop * ptype.width() > bytes.len())
                ==> !possible
            &&& validity_agrees(dtype, validity) && (dtype is Utf8 || dtype is Binary) ==> (possible
                <==> no_row_valid(data.slice_validity(dtype, validity)) || (viewable(
                bytes,
                i32::MAX as nat,
            ) && (parse_values(bytes) matches Some(values) && stop <= values.len())))
        }),
{
}

/// A slice is decompressible where the numbers on the way fit and the codec can be handed its frames,
/// and where the codec finds one malformed, or the slice can be taken from what they decode to. It is
/// not where a frame decodes to another size than its metadata says.
pub proof fn law_decompressible(data: Lz4Data, dtype: DType, validity: ValidityView)
    ensures
        ({
            let width = value_width(dtype);
            let handed = data.fits(width, validity) && data.frames_decodable(width, validity);
            let outcome = data.outcome(width, validity);
            &&& !handed || outcome is WrongSize ==> !data.decompressible(dtype, validity)
            &&& handed && outcome is Malformed ==> data.decompressible(dtype, validity)
            &&& handed && outcome is Bytes ==> (data.decompressible(dtype, validity)
                <==> data.assemblable(
                dtype,
                validity,
                data.skipped_values(width, validity),
                outcome->Bytes_0,
            ))
        }),
        data.var_bin_decompressible(validity) <==> data.fits(1, validity) && data.frames_decodable(
            1,
            validity,
        ) && data.outcome(1, validity) !is WrongSize,
{
}

/// The codec can be handed the frames that a slice needs where it can be handed each of them.
pub proof fn law_frames_decodable(data: Lz4Data, width: nat, validity: ValidityView)
    ensures
        ({
            let (first, end) = data.needed(width, validity);
            &&& data.frames_decodable(width, validity) <==> forall|i: int|
                first <= i < end ==> {
                    let size = data.metadata@[i].uncompressed_size as nat;
                    lengths_fit(#[trigger] data.blocks()[i], size) || block_decoded(
                        data.blocks()[i],
                        size,
                    ) is Some
                }
            &&& data.frame_lengths_fit(width, validity) <==> forall|i: int|
                first <= i < end ==> lengths_fit(
                    #[trigger] data.blocks()[i],
                    data.metadata@[i].uncompressed_size as nat,
                )
        }),
{
}

/// The window that decompressing into a stream returns counts rows: it has as many values as the
/// slice has rows that hold one, and the values that it skips, with those of the frames before, are
/// as many as there are rows that hold one before the slice. It holds of any frames.
pub proof fn law_window_counts_rows(
    data: Lz4Data,
    validity: ValidityView,
    stream: Seq<u8>,
    window: VarBinDecompressed,
)
    requires
        data.in_range(),
        validity.covers(data.unsliced_n_rows as nat),
        data.is_var_bin_window(validity, stream, window),
    ensures
        ({
            let mask = validity.mask(data.unsliced_n_rows as nat);
            let (first, end) = data.needed(1, validity);
            &&& window.skip_values + values_before(data.metadata@, 1, first) == mask.take(
                data.slice_start as int,
            ).filter(|flag: bool| flag).len()
            &&& window.n_values == mask.subrange(
                data.slice_start as int,
                data.slice_stop as int,
            ).filter(|flag: bool| flag).len()
            &&& decode_frames(data.blocks(), data.metadata@, first, end) == FrameOutcome::Bytes(
                stream,
            )
        }),
{
    let mask = validity.mask(data.unsliced_n_rows as nat);
    let start = data.slice_start as int;
    let stop = data.slice_stop as int;
    let cut = mask.subrange(start, stop);
    law_valid_count_is_filter_len(mask, start);
    law_valid_count_is_filter_len(cut, stop - start);
    assert(cut.take(stop - start) =~= cut);
    lemma_valid_count_subrange(mask, start, stop, stop - start);
}

/// What a slice decompresses to: values of fixed width for a primitive type, aligned to their width,
/// and for a type of byte strings nulls alone where no row holds a value, and else byte strings. It
/// has as many rows as the slice. The cell of a null is all zeros, and the view of a null that of an
/// empty value. The buffers of byte strings are, one behind the other, what the frames decode to.
pub proof fn law_decompressed_form(
    data: Lz4Data,
    dtype: DType,
    validity: ValidityView,
    array: Decompressed,
    r: int,
)
    requires
        data.in_range(),
        validity.covers(data.unsliced_n_rows as nat),
        data.decompressible(dtype, validity),
        data.decompresses_to(dtype, validity, array),
        0 <= r < data.slice_stop - data.slice_start,
    ensures
        ({
            let valid = validity.mask(data.unsliced_n_rows as nat)[data.slice_start + r];
            match array {
                Decompressed::Primitive(parray) => {
                    let width = parray.ptype.width();
                    &&& dtype is Primitive
                    &&& parray.len == data.slice_stop - data.slice_start
                    &&& parray.alignment == width
                    &&& (parray.validity is NonNullable) == !dtype.nullable()
                    &&& !valid ==> forall|j: int|
                        0 <= j < width ==> parray.values@[#[trigger] (r * width + j)] == 0
                },
                Decompressed::VarBinView(vbv) => {
                    &&& dtype is Utf8 || dtype is Binary
                    &&& vbv.dtype == dtype
                    &&& vbv.views@.len() == data.slice_stop - data.slice_start
                    &&& (vbv.validity is NonNullable) == !dtype.nullable()
                    &&& FrameOutcome::Bytes(concat(buffer_bytes(vbv.buffers@))) == data.outcome(
                        1,
                        validity,
                    )
                    &&& !valid ==> (vbv.views@[r] matches BinaryView::Inlined { size, data: held }
                        && size == 0 && forall|j: int| 0 <= j < 12 ==> #[trigger] held@[j] == 0)
                },
                Decompressed::Null { dtype: null_dtype, len } => {
                    &&& dtype is Utf8 || dtype is Binary
                    &&& null_dtype == dtype
                    &&& len == data.slice_stop - data.slice_start
                    &&& !valid
                },
            }
        }),
{
    let width = value_width(dtype);
    lemma_skipped_before_slice(data, width, validity);
    let mask = data.slice_mask(dtype, validity);
    data.lemma_slice_mask(dtype, validity);
    let skipped = data.skipped_values(width, validity);
    let start = data.values_to_start(validity) - skipped;
    let stop = data.values_to_stop(validity) - skipped;
    let bytes = data.outcome(width, validity)->Bytes_0;
    assert(mask[r] == validity.mask(data.unsliced_n_rows as nat)[data.slice_start + r]);
    match array {
        Decompressed::Primitive(parray) => {
            let w = parray.ptype.width();
            let packed = bytes.subrange(start * w, stop * w);
            lemma_window(start, stop, w as int);
            if !mask[r] {
                assert forall|j: int| 0 <= j < w implies parray.values@[#[trigger] (r * w + j)]
                    == 0 by {
                    law_scattered_bytes(packed, mask, w, r, j);
                }
            }
        },
        Decompressed::VarBinView(vbv) => {
            let models = view_models(vbv.views@);
            assert(models.len() == vbv.views@.len());
            assert(models[r] == vbv.views@[r]@);
            law_segments_cover_stream(bytes, MAX_BUFFER_LEN as nat);
        },
        Decompressed::Null { dtype: _, len: _ } => {
            if data.slice_validity(dtype, validity) is AllInvalid {
                lemma_valid_count_constant(mask, mask.len() as int, false);
            }
            lemma_none_valid(mask);
        },
    }
}

/// A column of byte strings that decompresses can be decompressed into a stream as well.
pub proof fn law_var_bin_decompressible(data: Lz4Data, dtype: DType, validity: ValidityView)
    requires
        dtype is Utf8 || dtype is Binary,
        data.decompressible(dtype, validity),
    ensures
        data.var_bin_decompressible(validity),
{
}

} // verus!
