//! The array encoding.

use crate::arrays::Decompressed;
use crate::arrays::PrimitiveArray;
use crate::arrays::VarBinViewArray;
use crate::buffer::buffer_bytes;
use crate::buffer::clone_buffers;
use crate::buffer::ByteBuffer;
use crate::data::primitive_encodable;
use crate::data::value_width;
use crate::data::var_bin_encodable;
use crate::data::Lz4Data;
use crate::data::Lz4DataParts;
use crate::decompress::VarBinDecompressed;
use crate::dtype::DType;
use crate::error::Lz4Error;
use crate::metadata::metadata_message;
use crate::metadata::parse_metadata;
use crate::metadata::Lz4Metadata;
use crate::plan::FrameOutcome;
use crate::rows::Rows;
use crate::text::decimal;
use crate::text::push_decimal;
use crate::validity::child_to_validity;
use crate::validity::child_view;
use crate::validity::law_child_keeps_mask;
use crate::validity::law_mask_of_child;
use crate::validity::law_slice_slices_mask;
use crate::validity::validity_to_child;
use crate::validity::Validity;
use crate::validity::ValidityChild;
use crate::validity::ValidityChildView;
use crate::validity::ValidityView;
use vstd::prelude::*;
use vstd::string::StringExecFns;

verus! {

/// The encoding's identifier.
pub const ID: &'static str = "vortex.lz4";

/// The number of an array's slots for children: one, for the validity.
pub const NUM_SLOTS: usize = 1;

/// The name of the slot for the validity.
pub const VALIDITY_SLOT_NAME: &'static str = "validity";

/// The array encoding.
#[derive(Clone, Copy, Debug)]
pub struct Lz4;

/// An array in this encoding.
#[derive(Debug)]
pub struct Lz4Array {
    /// The logical type.
    pub dtype: DType,
    /// The number of rows.
    pub len: usize,
    /// The frames, and the slice of them that is meant.
    pub data: Lz4Data,
    /// The validity of the unsliced column.
    pub validity_slot: Option<ValidityChild>,
}

impl Lz4Array {
    /// The validity of the unsliced column.
    pub open spec fn unsliced_validity_spec(self) -> ValidityView {
        ValidityChildView::to_validity(
            child_view(self.validity_slot),
            self.dtype.nullability_spec(),
        )
    }

    /// Whether the data meets the invariants of an array of this type and length.
    pub open spec fn wf(self) -> bool {
        self.data.defect(self.dtype, self.len as nat, self.unsliced_validity_spec()) is None
    }

    /// The rows, as the frames hold them.
    pub open spec fn rows(self) -> Rows {
        self.data.rows(self.dtype, self.unsliced_validity_spec())
    }

    /// Whether the array can be decompressed, or is found malformed by the codec.
    pub open spec fn decompressible(self) -> bool {
        self.data.decompressible(self.dtype, self.unsliced_validity_spec())
    }

    /// Whether the lengths in the frames that the array needs fit the machine's integers.
    pub open spec fn frame_lengths_fit(self) -> bool {
        self.data.frame_lengths_fit(value_width(self.dtype), self.unsliced_validity_spec())
    }

    /// What the frames that the array needs decompress to.
    pub open spec fn outcome(self) -> FrameOutcome {
        self.data.outcome(value_width(self.dtype), self.unsliced_validity_spec())
    }

    /// The rows `start..stop`.
    pub open spec fn sliced(self, start: int, stop: int) -> Lz4Array {
        Lz4Array { len: (stop - start) as usize, data: self.data.sliced(start, stop), ..self }
    }

    /// Whether two arrays have the same type, the same frames and the same validity, and mean the
    /// same slice.
    pub open spec fn same(self, other: Lz4Array) -> bool {
        &&& self.dtype == other.dtype
        &&& self.len == other.len
        &&& self.data.same(other.data)
        &&& child_view(self.validity_slot) == child_view(other.validity_slot)
    }

    /// The validity of the unsliced column.
    pub fn unsliced_validity(&self) -> (validity: Validity)
        ensures
            validity@ == self.unsliced_validity_spec(),
    {
        child_to_validity(&self.validity_slot, self.dtype.nullability())
    }

    /// The rows `start..stop`, as a slice of the same frames.
    pub fn slice(&self, start: usize, stop: usize) -> (part: Self)
        requires
            self.wf(),
            start <= stop <= self.len,
        ensures
            part.wf(),
            part.same(self.sliced(start as int, stop as int)),
            part.dtype == self.dtype,
            part.len == stop - start,
            part.data.slice_start == self.data.slice_start + start,
            part.data.slice_stop == self.data.slice_start + stop,
            part.data.unsliced_n_rows == self.data.unsliced_n_rows,
            part.data.blocks() == self.data.blocks(),
            part.data.metadata@ == self.data.metadata@,
            child_view(part.validity_slot) == child_view(self.validity_slot),
    {
        Lz4Array {
            dtype: self.dtype,
            len: stop - start,
            data: self.data.with_slice(start, stop),
            validity_slot: self.clone_slot(),
        }
    }

    /// The child arrays that are there.
    pub fn children(&self) -> (children: Vec<ValidityChild>)
        ensures
            match child_view(self.validity_slot) {
                None => children@.len() == 0,
                Some(child) => children@.len() == 1 && children@[0]@ == child,
            },
    {
        let mut children: Vec<ValidityChild> = Vec::new();
        if let Some(child) = &self.validity_slot {
            children.push(child.clone());
        }
        children
    }

    fn clone_slot(&self) -> (slot: Option<ValidityChild>)
        ensures
            child_view(slot) == child_view(self.validity_slot),
    {
        match &self.validity_slot {
            None => None,
            Some(child) => Some(child.clone()),
        }
    }
}

impl Lz4Data {
    /// The rows `start..stop` of the slice.
    pub open spec fn sliced(self, start: int, stop: int) -> Lz4Data {
        Lz4Data {
            slice_start: (self.slice_start + start) as usize,
            slice_stop: (self.slice_start + stop) as usize,
            ..self
        }
    }

    /// Whether two encoded columns have the same frames and mean the same slice.
    pub open spec fn same(self, other: Lz4Data) -> bool {
        &&& self.blocks() == other.blocks()
        &&& self.metadata@ == other.metadata@
        &&& self.unsliced_n_rows == other.unsliced_n_rows
        &&& self.slice_start == other.slice_start
        &&& self.slice_stop == other.slice_stop
    }

    /// A short description: the number of rows, and the slice.
    pub fn display(&self) -> (text: String)
        ensures
            text@ == "nrows: "@ + decimal(self.unsliced_n_rows as nat) + ", slice: "@ + decimal(
                self.slice_start as nat,
            ) + ".."@ + decimal(self.slice_stop as nat),
    {
        let mut text: String = String::new();
        text.append("nrows: ");
        push_decimal(&mut text, self.unsliced_n_rows);
        text.append(", slice: ");
        push_decimal(&mut text, self.slice_start);
        text.append("..");
        push_decimal(&mut text, self.slice_stop);
        assert(text@ =~= "nrows: "@ + decimal(self.unsliced_n_rows as nat) + ", slice: "@ + decimal(
            self.slice_start as nat,
        ) + ".."@ + decimal(self.slice_stop as nat));
        text
    }
}

/// Slicing a slice is slicing once.
pub proof fn law_slice_of_slice(data: Lz4Data, a: int, b: int, c: int, d: int)
    requires
        data.in_range(),
        0 <= a <= b <= data.slice_stop - data.slice_start,
        0 <= c <= d <= b - a,
    ensures
        data.sliced(a, b).in_range(),
        data.sliced(a, b).sliced(c, d) == data.sliced(a + c, a + d),
{
}

impl Lz4 {
    /// The encoding's identifier.
    pub fn id() -> (id: &'static str)
        ensures
            id@ == ID@,
            id@ == "vortex.lz4"@,
    {
        ID
    }

    /// An array from compressed data and the validity of the unsliced column.
    ///
    /// # Errors
    ///
    /// Returns the first of the array's invariants that the data breaks.
    pub fn try_new(dtype: DType, data: Lz4Data, validity: Validity) -> (array: Result<
        Lz4Array,
        Lz4Error,
    >)
        requires
            data.slice_start <= data.slice_stop,
        ensures
            match array {
                Ok(a) => {
                    &&& data.defect(
                        dtype,
                        (data.slice_stop - data.slice_start) as nat,
                        validity@,
                    ) is None
                    &&& a.dtype == dtype
                    &&& a.len == data.slice_stop - data.slice_start
                    &&& a.data == data
                    &&& child_view(a.validity_slot) == ValidityChildView::of_validity(
                        validity@,
                        data.unsliced_n_rows as nat,
                    )
                    &&& a.wf()
                },
                Err(e) => data.defect(
                    dtype,
                    (data.slice_stop - data.slice_start) as nat,
                    validity@,
                ) == Some(e),
            },
    {
        let len: usize = data.len();
        match data.validate(&dtype, len, &validity) {
            Err(e) => Err(e),
            Ok(_) => {
                let validity_slot = validity_to_child(&validity, data.unsliced_n_rows());
                Ok(Lz4Array { dtype, len, data, validity_slot })
            },
        }
    }

    /// Checks the invariants of an array's data.
    ///
    /// # Errors
    ///
    /// Returns the first of them that the data breaks.
    pub fn validate(
        data: &Lz4Data,
        dtype: &DType,
        len: usize,
        validity_slot: &Option<ValidityChild>,
    ) -> (checked: Result<(), Lz4Error>)
        ensures
            ({
                let validity = ValidityChildView::to_validity(
                    child_view(*validity_slot),
                    dtype.nullability_spec(),
                );
                match checked {
                    Ok(_) => data.defect(*dtype, len as nat, validity) is None,
                    Err(e) => data.defect(*dtype, len as nat, validity) == Some(e),
                }
            }),
    {
        let validity: Validity = child_to_validity(validity_slot, dtype.nullability());
        data.validate(dtype, len, &validity)
    }

    /// Compresses a column of byte strings.
    pub fn from_var_bin_view(vbv: &VarBinViewArray, values_per_frame: usize) -> (array: Result<
        Lz4Array,
        Lz4Error,
    >)
        requires
            var_bin_encodable(*vbv),
        ensures
            array matches Ok(a) && {
                &&& a.wf()
                &&& a.dtype == vbv.dtype
                &&& a.len == vbv.views@.len()
                &&& a.data.encodes_var_bin(*vbv, values_per_frame as nat)
                &&& a.unsliced_validity_spec() == vbv.validity@
            },
    {
        let validity: Validity = vbv.validity.clone();
        match Lz4Data::from_var_bin_view(vbv, values_per_frame) {
            Err(e) => Err(e),
            Ok(data) => Lz4::try_new(vbv.dtype, data, validity),
        }
    }

    /// Compresses a primitive column.
    pub fn from_primitive(parray: &PrimitiveArray, values_per_frame: usize) -> (array: Result<
        Lz4Array,
        Lz4Error,
    >)
        requires
            primitive_encodable(*parray),
        ensures
            array matches Ok(a) && {
                &&& a.wf()
                &&& a.dtype == parray.dtype_spec()
                &&& a.len == parray.len
                &&& a.data.encodes_primitive(*parray, values_per_frame as nat)
                &&& a.unsliced_validity_spec() == parray.validity@
            },
    {
        let validity: Validity = parray.validity.clone();
        match Lz4Data::from_primitive(parray, values_per_frame) {
            Err(e) => Err(e),
            Ok(data) => Lz4::try_new(parray.dtype(), data, validity),
        }
    }

    /// Decompresses an array.
    ///
    /// # Errors
    ///
    /// Returns [`Lz4Error::Decompress`] where the codec finds a frame malformed.
    pub fn decompress(array: &Lz4Array) -> (decompressed: Result<Decompressed, Lz4Error>)
        requires
            array.wf(),
            array.decompressible(),
        ensures
            match decompressed {
                Ok(d) => {
                    &&& array.outcome() is Bytes
                    &&& d.wf()
                    &&& d.dtype_spec() == array.dtype
                    &&& d.rows() == array.rows()
                    &&& array.data.decompresses_to(array.dtype, array.unsliced_validity_spec(), d)
                },
                Err(e) => e == Lz4Error::Decompress && array.outcome() is Malformed,
            },
    {
        let unsliced_validity: Validity = array.unsliced_validity();
        array.data.decompress(&array.dtype, &unsliced_validity)
    }

    /// Decompresses an array whose frames nobody vouches for: returns `None` where they are not
    /// [decompressible](Lz4Array::decompressible), which is found by decompressing them first, or
    /// where the lengths in them do not [fit](Lz4Array::frame_lengths_fit).
    pub fn checked_decompress(array: &Lz4Array) -> (decompressed: Option<
        Result<Decompressed, Lz4Error>,
    >)
        requires
            array.wf(),
        ensures
            decompressed is Some <==> array.decompressible() && array.frame_lengths_fit(),
            decompressed matches Some(Ok(d)) ==> {
                &&& array.outcome() is Bytes
                &&& d.wf()
                &&& d.dtype_spec() == array.dtype
                &&& d.rows() == array.rows()
                &&& array.data.decompresses_to(array.dtype, array.unsliced_validity_spec(), d)
            },
            decompressed matches Some(Err(e)) ==> e == Lz4Error::Decompress
                && array.outcome() is Malformed,
    {
        let unsliced_validity: Validity = array.unsliced_validity();
        if array.data.is_decompressible(&array.dtype, &unsliced_validity) {
            Some(Lz4::decompress(array))
        } else {
            None
        }
    }

    /// Decompresses the values of an array of byte strings straight into a buffer of the caller's.
    /// See [`Lz4Data::decompress_var_bin_into`].
    ///
    /// # Errors
    ///
    /// Returns [`Lz4Error::Decompress`] where the codec finds a frame malformed.
    pub fn decompress_var_bin_into(array: &Lz4Array, out: &mut Vec<u8>) -> (window: Result<
        VarBinDecompressed,
        Lz4Error,
    >)
        requires
            array.wf(),
            array.data.var_bin_decompressible(array.unsliced_validity_spec()),
        ensures
            final(out)@.len() == array.data.needed_size(1, array.unsliced_validity_spec()),
            match window {
                Ok(w) => array.data.is_var_bin_window(
                    array.unsliced_validity_spec(),
                    final(out)@,
                    w,
                ),
                Err(e) => {
                    &&& e == Lz4Error::Decompress
                    &&& array.data.outcome(1, array.unsliced_validity_spec()) is Malformed
                },
            },
    {
        let unsliced_validity: Validity = array.unsliced_validity();
        array.data.decompress_var_bin_into(&unsliced_validity, out)
    }

    /// Decompresses the values of an array of byte strings whose frames nobody vouches for: returns
    /// `None`, and leaves `out` as it is, where they are not
    /// [decompressible](Lz4Data::var_bin_decompressible), which is found by decompressing them
    /// first, or where the lengths in them do not [fit](Lz4Data::frame_lengths_fit).
    pub fn checked_decompress_var_bin_into(array: &Lz4Array, out: &mut Vec<u8>) -> (window: Option<
        Result<VarBinDecompressed, Lz4Error>,
    >)
        requires
            array.wf(),
        ensures
            window is Some <==> array.data.var_bin_decompressible(array.unsliced_validity_spec())
                && array.data.frame_lengths_fit(1, array.unsliced_validity_spec()),
            match window {
                None => final(out)@ == old(out)@,
                Some(Ok(w)) => array.data.is_var_bin_window(
                    array.unsliced_validity_spec(),
                    final(out)@,
                    w,
                ),
                Some(Err(e)) => {
                    &&& e == Lz4Error::Decompress
                    &&& array.data.outcome(1, array.unsliced_validity_spec()) is Malformed
                },
            },
    {
        let unsliced_validity: Validity = array.unsliced_validity();
        if array.data.is_var_bin_decompressible(&unsliced_validity) {
            Some(Lz4::decompress_var_bin_into(array, out))
        } else {
            None
        }
    }

    /// The validity of the array's rows.
    pub fn validity(array: &Lz4Array) -> (validity: Validity)
        requires
            array.data.in_range(),
            array.unsliced_validity_spec().covers(array.data.unsliced_n_rows as nat),
        ensures
            validity@ == array.unsliced_validity_spec().slice(
                array.data.slice_start as int,
                array.data.slice_stop as int,
            ),
    {
        array.unsliced_validity().slice(array.data.slice_start(), array.data.slice_stop())
    }

    /// The value of a row, or `None` for a null. Of the frames, those are decompressed that the row
    /// needs.
    ///
    /// # Errors
    ///
    /// Returns [`Lz4Error::Decompress`] where the codec finds a frame malformed.
    pub fn scalar_at(array: &Lz4Array, index: usize) -> (scalar: Result<Option<Vec<u8>>, Lz4Error>)
        requires
            array.wf(),
            index < array.len,
            array.sliced(index as int, index + 1).decompressible(),
        ensures
            match scalar {
                Ok(value) => {
                    &&& array.sliced(index as int, index + 1).outcome() is Bytes
                    &&& scalar_view(value) == array.sliced(index as int, index + 1).rows()[0]
                    &&& match value {
                        Some(bytes) => array.sliced(index as int, index + 1).rows()[0] == Some(
                            bytes@,
                        ),
                        None => array.sliced(index as int, index + 1).rows()[0] is None,
                    }
                },
                Err(e) => {
                    &&& e == Lz4Error::Decompress
                    &&& array.sliced(index as int, index + 1).outcome() is Malformed
                },
            },
    {
        let sliced: Lz4Array = array.slice(index, index + 1);
        proof {
            sliced.lemma_same(array.sliced(index as int, index + 1));
            sliced.data.lemma_rows_len(sliced.dtype, sliced.unsliced_validity_spec());
        }
        match Lz4::decompress(&sliced) {
            Err(e) => Err(e),
            Ok(decompressed) => match decompressed.value_at(0) {
                None => Ok(None),
                Some(value) => Ok(Some(vstd::slice::slice_to_vec(value))),
            },
        }
    }

    /// The value of a row of an array whose frames nobody vouches for: returns `None` where those
    /// that the row needs are not [decompressible](Lz4Array::decompressible), which is found by
    /// decompressing them first, or where the lengths in them do not
    /// [fit](Lz4Array::frame_lengths_fit).
    pub fn checked_scalar_at(array: &Lz4Array, index: usize) -> (scalar: Option<
        Result<Option<Vec<u8>>, Lz4Error>,
    >)
        requires
            array.wf(),
            index < array.len,
        ensures
            scalar is Some <==> array.sliced(index as int, index + 1).decompressible()
                && array.sliced(index as int, index + 1).frame_lengths_fit(),
            scalar matches Some(Ok(value)) ==> {
                &&& array.sliced(index as int, index + 1).outcome() is Bytes
                &&& scalar_view(value) == array.sliced(index as int, index + 1).rows()[0]
                &&& match value {
                    Some(bytes) => array.sliced(index as int, index + 1).rows()[0] == Some(bytes@),
                    None => array.sliced(index as int, index + 1).rows()[0] is None,
                }
            },
            scalar matches Some(Err(e)) ==> {
                &&& e == Lz4Error::Decompress
                &&& array.sliced(index as int, index + 1).outcome() is Malformed
            },
    {
        let unsliced_validity: Validity = array.unsliced_validity();
        let sliced: Lz4Array = array.slice(index, index + 1);
        proof {
            sliced.lemma_same(array.sliced(index as int, index + 1));
        }
        if sliced.data.is_decompressible(&sliced.dtype, &unsliced_validity) {
            Some(Lz4::scalar_at(array, index))
        } else {
            None
        }
    }

    /// The number of an array's buffers: its frames.
    pub fn nbuffers(array: &Lz4Array) -> (n: usize)
        ensures
            n == array.data.frames@.len(),
    {
        array.data.frames.len()
    }

    /// A frame of an array.
    pub fn buffer(array: &Lz4Array, idx: usize) -> (buffer: ByteBuffer)
        requires
            idx < array.data.frames@.len(),
        ensures
            buffer@ == array.data.frames@[idx as int]@,
    {
        array.data.frames[idx].clone()
    }

    /// The name of a buffer.
    pub fn buffer_name(_array: &Lz4Array, idx: usize) -> (name: Option<String>)
        ensures
            name matches Some(text) && text@ == "frame_"@ + decimal(idx as nat),
    {
        let mut text: String = String::new();
        text.append("frame_");
        push_decimal(&mut text, idx);
        assert(text@ =~= "frame_"@ + decimal(idx as nat));
        Some(text)
    }

    /// The name of a slot.
    pub fn slot_name(_array: &Lz4Array, idx: usize) -> (name: String)
        requires
            idx < NUM_SLOTS,
        ensures
            name@ == VALIDITY_SLOT_NAME@,
            name@ == "validity"@,
    {
        String::from_str(VALIDITY_SLOT_NAME)
    }

    /// The array with other frames in place of its own; nothing is checked of them.
    pub fn with_buffers(array: &Lz4Array, buffers: &Vec<ByteBuffer>) -> (with: Lz4Array)
        ensures
            with.dtype == array.dtype,
            with.len == array.len,
            with.data.blocks() == buffer_bytes(buffers@),
            with.data.metadata@ == array.data.metadata@,
            with.data.unsliced_n_rows == array.data.unsliced_n_rows,
            with.data.slice_start == array.data.slice_start,
            with.data.slice_stop == array.data.slice_stop,
            child_view(with.validity_slot) == child_view(array.validity_slot),
    {
        let mut data: Lz4Data = array.data.clone();
        data.frames = clone_buffers(buffers);
        Lz4Array { dtype: array.dtype, len: array.len, data, validity_slot: array.clone_slot() }
    }

    /// The array's metadata in its serialized form.
    pub fn serialize(array: &Lz4Array) -> (bytes: Result<Option<Vec<u8>>, Lz4Error>)
        ensures
            bytes matches Ok(Some(b)) && b@ == metadata_message(array.data.metadata@),
    {
        Ok(Some(array.data.metadata.encode_to_vec()))
    }

    /// An unsliced array from its serialized metadata, its frames and its children; nothing but the
    /// metadata and the number of children is checked.
    ///
    /// # Errors
    ///
    /// Returns [`Lz4Error::InvalidMetadata`] where the metadata is malformed, and else
    /// [`Lz4Error::UnexpectedChildren`] where there is more than one child.
    pub fn deserialize(
        dtype: &DType,
        len: usize,
        metadata: &[u8],
        buffers: &Vec<ByteBuffer>,
        children: &Vec<ValidityChild>,
    ) -> (array: Result<Lz4Array, Lz4Error>)
        ensures
            match array {
                Ok(a) => {
                    &&& parse_metadata(metadata@, Seq::empty()) == Some(a.data.metadata@)
                    &&& a.dtype == dtype
                    &&& a.len == len
                    &&& a.data.blocks() == buffer_bytes(buffers@)
                    &&& a.data.is_whole(len as nat)
                    &&& a.data.unsliced_n_rows == len
                    &&& a.data.slice_start == 0
                    &&& a.data.slice_stop == len
                    &&& children@.len() <= 1
                    &&& child_view(a.validity_slot) == if children@.len() == 0 {
                        None
                    } else {
                        Some(children@[0]@)
                    }
                },
                Err(e) => {
                    ||| e == Lz4Error::InvalidMetadata && parse_metadata(
                        metadata@,
                        Seq::empty(),
                    ) is None
                    ||| parse_metadata(metadata@, Seq::empty()) is Some && children@.len() > 1 && e
                        == Lz4Error::UnexpectedChildren { children: children@.len() as usize }
                },
            },
    {
        let metadata: Lz4Metadata = match Lz4Metadata::decode(metadata) {
            Ok(metadata) => metadata,
            Err(e) => {
                return Err(e);
            },
        };
        let validity_slot: Option<ValidityChild> = if children.len() == 0 {
            None
        } else if children.len() == 1 {
            Some(children[0].clone())
        } else {
            return Err(Lz4Error::UnexpectedChildren { children: children.len() });
        };
        let data = Lz4Data::new(clone_buffers(buffers), metadata, len);
        Ok(Lz4Array { dtype: *dtype, len, data, validity_slot })
    }
}

/// A row's value as mathematical bytes.
pub open spec fn scalar_view(value: Option<Vec<u8>>) -> Option<Seq<u8>> {
    match value {
        None => None,
        Some(bytes) => Some(bytes@),
    }
}

impl Lz4Array {
    /// Arrays that are the same have the same rows.
    pub proof fn lemma_same(self, other: Lz4Array)
        requires
            self.same(other),
        ensures
            self.unsliced_validity_spec() == other.unsliced_validity_spec(),
            self.decompressible() == other.decompressible(),
            self.frame_lengths_fit() == other.frame_lengths_fit(),
            self.outcome() == other.outcome(),
            self.rows() == other.rows(),
    {
        self.data.lemma_same(other.data, self.dtype, self.unsliced_validity_spec());
    }
}

/// A slice of an array counts its rows from the array's first row: it has the type, the frames and
/// the validity of the array, and as many rows as asked for.
pub proof fn law_sliced(array: Lz4Array, start: int, stop: int)
    requires
        array.data.in_range(),
        0 <= start <= stop <= array.data.slice_stop - array.data.slice_start,
    ensures
        ({
            let part = array.sliced(start, stop);
            &&& part.dtype == array.dtype
            &&& part.len == stop - start
            &&& part.validity_slot == array.validity_slot
            &&& part.data.frames == array.data.frames
            &&& part.data.metadata == array.data.metadata
            &&& part.data.unsliced_n_rows == array.data.unsliced_n_rows
            &&& part.data.slice_start == array.data.slice_start + start
            &&& part.data.slice_stop == array.data.slice_start + stop
        }),
{
}

/// The validity of an array is that of the unsliced column, cut to the slice: it says of each row of
/// the slice what the child says of the row that it is in the column, and without a child that no
/// row is null.
pub proof fn law_validity_of_row(array: Lz4Array, validity: Validity, i: int)
    requires
        array.data.in_range(),
        array.unsliced_validity_spec().covers(array.data.unsliced_n_rows as nat),
        validity@ == array.unsliced_validity_spec().slice(
            array.data.slice_start as int,
            array.data.slice_stop as int,
        ),
        0 <= i < array.data.slice_stop - array.data.slice_start,
    ensures
        ({
            let len = (array.data.slice_stop - array.data.slice_start) as nat;
            let flag = validity@.mask(len)[i];
            match array.validity_slot {
                None => flag && (validity is NonNullable <==> !array.dtype.nullable()),
                Some(ValidityChild::Constant { value, len: _ }) => flag == value,
                Some(ValidityChild::Flags(flags)) => flag == flags@[array.data.slice_start + i],
            }
        }),
{
    law_slice_slices_mask(
        array.unsliced_validity_spec(),
        array.data.unsliced_n_rows as nat,
        array.data.slice_start as int,
        array.data.slice_stop as int,
    );
    law_mask_of_child(
        child_view(array.validity_slot),
        array.dtype.nullability_spec(),
        array.data.unsliced_n_rows as nat,
        array.data.slice_start + i,
    );
}

/// An array is well-formed where its type is stored, its slice lies within the column and has the
/// array's length, its flags, if it has some, speak of every row of the column, and it has as many
/// frames as metadata.
pub proof fn law_array_wf(array: Lz4Array)
    ensures
        array.wf() <==> {
            &&& array.dtype !is Other
            &&& array.data.slice_start <= array.data.slice_stop <= array.data.unsliced_n_rows
            &&& array.data.slice_stop - array.data.slice_start == array.len
            &&& array.validity_slot matches Some(ValidityChild::Flags(flags)) ==> flags@.len()
                == array.data.unsliced_n_rows
            &&& array.data.frames@.len() == array.data.metadata.frames@.len()
        },
{
}

/// What compressing a column and decompressing the array gives has the column's rows: the two
/// contracts meet for every column that can be compressed.
pub proof fn law_primitive_survives(
    parray: PrimitiveArray,
    values_per_frame: nat,
    array: Lz4Array,
    decompressed: Decompressed,
    i: int,
)
    requires
        primitive_encodable(parray),
        array.wf(),
        array.dtype == parray.dtype_spec(),
        array.len == parray.len,
        array.data.encodes_primitive(parray, values_per_frame),
        array.unsliced_validity_spec() == parray.validity@,
        decompressed.dtype_spec() == array.dtype,
        decompressed.rows() == array.rows(),
        array.data.decompresses_to(array.dtype, array.unsliced_validity_spec(), decompressed),
        0 <= i < parray.len,
    ensures
        array.decompressible(),
        array.outcome() is Bytes,
        decompressed matches Decompressed::Primitive(back) && {
            &&& back.ptype == parray.ptype
            &&& back.len == parray.len
            &&& back.rows()[i] == parray.rows()[i]
            &&& (back.validity is NonNullable) == (parray.validity is NonNullable)
        },
{
    crate::roundtrip::law_primitive_array_roundtrip(
        parray,
        values_per_frame,
        array,
        0,
        parray.len as int,
    );
    assert(array.sliced(0, parray.len as int).same(array));
    array.sliced(0, parray.len as int).lemma_same(array);
    assert(parray.rows().subrange(0, parray.len as int) =~= parray.rows());
}

/// What compressing a column of byte strings and decompressing the array gives has the column's
/// rows: the two contracts meet for every column that can be compressed.
pub proof fn law_var_bin_survives(
    vbv: VarBinViewArray,
    values_per_frame: nat,
    array: Lz4Array,
    decompressed: Decompressed,
    i: int,
)
    requires
        var_bin_encodable(vbv),
        array.wf(),
        array.dtype == vbv.dtype,
        array.len == vbv.views@.len(),
        array.data.encodes_var_bin(vbv, values_per_frame),
        array.unsliced_validity_spec() == vbv.validity@,
        decompressed.dtype_spec() == array.dtype,
        decompressed.rows() == array.rows(),
        array.data.decompresses_to(array.dtype, array.unsliced_validity_spec(), decompressed),
        0 <= i < vbv.views@.len(),
    ensures
        array.decompressible(),
        array.outcome() is Bytes,
        decompressed !is Primitive,
        decompressed.rows().len() == vbv.views@.len(),
        decompressed.rows()[i] == vbv.rows()[i],
{
    crate::roundtrip::law_var_bin_array_roundtrip(
        vbv,
        values_per_frame,
        array,
        0,
        vbv.views@.len() as int,
    );
    assert(array.sliced(0, vbv.views@.len() as int).same(array));
    array.sliced(0, vbv.views@.len() as int).lemma_same(array);
    assert(vbv.rows().subrange(0, vbv.views@.len() as int) =~= vbv.rows());
}

/// An array is read as its data is, with its type and its validity.
pub proof fn law_array_reads_data(array: Lz4Array)
    ensures
        ({
            let validity = ValidityChildView::to_validity(
                child_view(array.validity_slot),
                array.dtype.nullability_spec(),
            );
            &&& array.unsliced_validity_spec() == validity
            &&& array.rows() == array.data.rows(array.dtype, validity)
            &&& array.decompressible() == array.data.decompressible(array.dtype, validity)
            &&& array.outcome() == array.data.outcome(value_width(array.dtype), validity)
            &&& array.frame_lengths_fit() == array.data.frame_lengths_fit(
                value_width(array.dtype),
                validity,
            )
        }),
{
}

/// The buffers of an array are its frames, by number: there are as many, each has the bytes of its
/// frame, and each is named by its number.
pub proof fn law_buffer_calls(
    array: Lz4Array,
    n: usize,
    idx: usize,
    buffer: ByteBuffer,
    name: Option<String>,
)
    requires
        call_ensures(Lz4::nbuffers, (&array,), n),
        idx < n,
        call_ensures(Lz4::buffer, (&array, idx), buffer),
        call_ensures(Lz4::buffer_name, (&array, idx), name),
    ensures
        n == array.data.frames@.len(),
        buffer@ == array.data.frames@[idx as int]@,
        name matches Some(text) && text@.take(6) == "frame_"@ && crate::text::spelled(text@.skip(6))
            == idx,
{
    reveal_strlit("frame_");
    let text = name->0@;
    crate::text::law_decimal_spells_number(idx as nat);
    assert(text.take(6) =~= "frame_"@);
    assert(text.skip(6) =~= decimal(idx as nat));
}

/// An array with its own frames in place of its own is the same array.
pub proof fn law_with_own_buffers(array: Lz4Array, buffers: Vec<ByteBuffer>, with: Lz4Array)
    requires
        buffers@ == array.data.frames@,
        call_ensures(Lz4::with_buffers, (&array, &buffers), with),
    ensures
        with.same(array),
        with.rows() == array.rows(),
{
    with.lemma_same(array);
}

/// A part of an encoded column counts its rows from the column's first row and keeps the frames.
pub proof fn law_with_slice_calls(data: Lz4Data, start: usize, stop: usize, part: Lz4Data, n: usize)
    requires
        data.in_range(),
        start <= stop <= data.slice_stop - data.slice_start,
        call_ensures(Lz4Data::with_slice, (&data, start, stop), part),
        call_ensures(Lz4Data::len, (&part,), n),
    ensures
        part.in_range(),
        n == stop - start,
        part.slice_start - data.slice_start == start,
        part.slice_stop - part.slice_start == stop - start,
        part.unsliced_n_rows == data.unsliced_n_rows,
        part.blocks() == data.blocks(),
        part.metadata@ == data.metadata@,
{
}

/// Comparing encoded columns is fair: a column equals itself and its copy, two columns are equal
/// either way round, and what equals an equal column is equal.
pub proof fn law_array_eq_calls(
    a: Lz4Data,
    b: Lz4Data,
    c: Lz4Data,
    aa: bool,
    ab: bool,
    ba: bool,
    bc: bool,
    ac: bool,
)
    requires
        call_ensures(Lz4Data::array_eq, (&a, &a), aa),
        call_ensures(Lz4Data::array_eq, (&a, &b), ab),
        call_ensures(Lz4Data::array_eq, (&b, &a), ba),
        call_ensures(Lz4Data::array_eq, (&b, &c), bc),
        call_ensures(Lz4Data::array_eq, (&a, &c), ac),
    ensures
        aa,
        ab == ba,
        ab && bc ==> ac,
        ab ==> a.blocks() == b.blocks() && a.unsliced_n_rows == b.unsliced_n_rows && a.slice_start
            == b.slice_start && a.slice_stop == b.slice_stop,
        a.blocks() != b.blocks() ==> !ab,
        a.unsliced_n_rows != b.unsliced_n_rows ==> !ab,
        a.slice_start != b.slice_start ==> !ab,
        a.slice_stop != b.slice_stop ==> !ab,
{
}

/// An array is made of data that meets the array's invariants, with the validity that was given: its
/// rows are those of the slice, and each is null where the validity says so.
pub proof fn law_try_new_calls(
    dtype: DType,
    data: Lz4Data,
    validity: Validity,
    array: Result<Lz4Array, Lz4Error>,
)
    requires
        data.in_range(),
        call_ensures(Lz4::try_new, (dtype, data, validity), array),
    ensures
        array is Ok <==> {
            &&& dtype !is Other
            &&& validity matches Validity::Array(flags) ==> flags@.len() == data.unsliced_n_rows
            &&& data.frames@.len() == data.metadata.frames@.len()
        },
        array matches Ok(a) ==> {
            &&& a.dtype == dtype
            &&& a.len == data.slice_stop - data.slice_start
            &&& a.data == data
            &&& forall|i: int|
                0 <= i < data.unsliced_n_rows ==> #[trigger] a.unsliced_validity_spec().mask(
                    data.unsliced_n_rows as nat,
                )[i] == validity@.mask(data.unsliced_n_rows as nat)[i]
        },
        array matches Err(e) ==> {
            &&& dtype is Other ==> e == Lz4Error::UnsupportedDType
            &&& dtype !is Other ==> e is ValidityLengthMismatch || e is FrameCountMismatch
        },
{
    if array is Ok {
        law_child_keeps_mask(
            validity@,
            data.unsliced_n_rows as nat,
            dtype.nullability_spec(),
        );
    }
}

/// What an encoded column tells of itself: its slice, its rows, how many rows the slice has, and
/// that it is empty exactly where it has none. The description spells these numbers.
pub proof fn law_data_tells_itself(
    data: Lz4Data,
    start: usize,
    stop: usize,
    n_rows: usize,
    len: usize,
    empty: bool,
    text: String,
) -> (spelled_numbers: (Seq<char>, Seq<char>, Seq<char>))
    requires
        data.in_range(),
        call_ensures(Lz4Data::slice_start, (&data,), start),
        call_ensures(Lz4Data::slice_stop, (&data,), stop),
        call_ensures(Lz4Data::unsliced_n_rows, (&data,), n_rows),
        call_ensures(Lz4Data::len, (&data,), len),
        call_ensures(Lz4Data::is_empty, (&data,), empty),
        call_ensures(Lz4Data::display, (&data,), text),
    ensures
        start == data.slice_start,
        stop == data.slice_stop,
        n_rows == data.unsliced_n_rows,
        start + len == stop,
        empty <==> len == 0,
        ({
            let (rows_text, start_text, stop_text) = spelled_numbers;
            &&& text@ == "nrows: "@ + rows_text + ", slice: "@ + start_text + ".."@ + stop_text
            &&& crate::text::spelled(rows_text) == n_rows
            &&& crate::text::spelled(start_text) == start
            &&& crate::text::spelled(stop_text) == stop
        }),
{
    crate::text::law_decimal_spells_number(n_rows as nat);
    crate::text::law_decimal_spells_number(start as nat);
    crate::text::law_decimal_spells_number(stop as nat);
    (decimal(n_rows as nat), decimal(start as nat), decimal(stop as nat))
}

/// The parts of an encoded column are what it holds, and the validity that was given.
pub proof fn law_into_parts_calls(data: Lz4Data, validity: Validity, parts: Lz4DataParts)
    requires
        call_ensures(Lz4Data::into_parts, (data, validity), parts),
    ensures
        parts.frames@ == data.frames@,
        parts.metadata@ == data.metadata@,
        parts.validity@ == validity@,
        parts.n_rows == data.unsliced_n_rows,
        parts.slice_start == data.slice_start,
        parts.slice_stop == data.slice_stop,
{
}

/// The encoding goes by one name, and so does the slot of its one child.
pub proof fn law_names(id: &'static str, array: Lz4Array, slot: String)
    requires
        call_ensures(Lz4::id, (), id),
        call_ensures(Lz4::slot_name, (&array, 0usize), slot),
    ensures
        id@ == "vortex.lz4"@,
        slot@ == "validity"@,
        NUM_SLOTS == 1,
{
}

/// The validity that an array reports says of each of its rows what the array's child says of the
/// row that it is in the unsliced column, and that it is null where decompressing gives a null.
pub proof fn law_validity_calls(array: Lz4Array, validity: Validity, i: int)
    requires
        array.wf(),
        call_ensures(Lz4::validity, (&array,), validity),
        0 <= i < array.len,
    ensures
        match array.validity_slot {
            None => validity@.mask(array.len as nat)[i],
            Some(ValidityChild::Constant { value, len: _ }) => validity@.mask(array.len as nat)[i]
                == value,
            Some(ValidityChild::Flags(flags)) => validity@.mask(array.len as nat)[i]
                == flags@[array.data.slice_start + i],
        },
        array.decompressible() && array.outcome() is Bytes ==> (array.rows()[i] is None
            <==> !validity@.mask(array.len as nat)[i]),
{
    law_validity_of_row(array, validity, i);
    law_slice_slices_mask(
        array.unsliced_validity_spec(),
        array.data.unsliced_n_rows as nat,
        array.data.slice_start as int,
        array.data.slice_stop as int,
    );
    if array.decompressible() && array.outcome() is Bytes {
        crate::decompress::law_rows_follow_validity(
            array.data,
            array.dtype,
            array.unsliced_validity_spec(),
            i,
        );
    }
}

/// Decompressing with and without a check first gives the same: the same rows of the same type, or
/// an error either way.
pub proof fn law_checked_decompress_calls(
    array: Lz4Array,
    checked: Result<Decompressed, Lz4Error>,
    plain: Result<Decompressed, Lz4Error>,
)
    requires
        array.wf(),
        call_ensures(Lz4::checked_decompress, (&array,), Some(checked)),
        call_ensures(Lz4::decompress, (&array,), plain),
    ensures
        checked is Ok <==> plain is Ok,
        checked matches Ok(a) ==> (plain matches Ok(b) && a.rows() == b.rows() && a.dtype_spec()
            == b.dtype_spec()),
        checked matches Err(e) ==> e == Lz4Error::Decompress && plain == Err::<
            Decompressed,
            Lz4Error,
        >(Lz4Error::Decompress),
{
}

/// A single row read with and without a check first is the same.
pub proof fn law_checked_scalar_calls(
    array: Lz4Array,
    index: usize,
    checked: Result<Option<Vec<u8>>, Lz4Error>,
    plain: Result<Option<Vec<u8>>, Lz4Error>,
)
    requires
        array.wf(),
        index < array.len,
        call_ensures(Lz4::checked_scalar_at, (&array, index), Some(checked)),
        call_ensures(Lz4::scalar_at, (&array, index), plain),
    ensures
        checked is Ok <==> plain is Ok,
        checked matches Ok(Some(a)) ==> (plain matches Ok(Some(b)) && a@ == b@),
        checked matches Ok(None) ==> plain matches Ok(None),
{
}

} // verus!
