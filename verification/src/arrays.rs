//! Columns in memory.

use crate::buffer::buffer_bytes;
use crate::buffer::ByteBuffer;
use crate::bytes::all_prefixed;
use crate::bytes::concat;
use crate::bytes::lemma_concat_push;
use crate::bytes::lemma_value_start;
use crate::bytes::prefixed;
use crate::bytes::push_bytes;
use crate::bytes::push_le_u32;
use crate::bytes::value_start;
use crate::dtype::DType;
use crate::dtype::PType;
use crate::rows::cell;
use crate::rows::law_scattered_bytes;
use crate::rows::lemma_cell_bounds;
use crate::rows::lemma_present_all;
use crate::rows::lemma_scatter_all;
use crate::rows::lemma_scattered_rows;
use crate::rows::present;
use crate::rows::scattered_cells;
use crate::rows::zero_cell;
use crate::rows::Rows;
use crate::validity::lemma_valid_count_bounds;
use crate::validity::valid_count;
use crate::validity::Validity;
use crate::views::BinaryView;
use vstd::prelude::*;

verus! {

/// A column of values of one fixed width, a null's cell included.
#[derive(Debug)]
pub struct PrimitiveArray {
    /// The type of the values.
    pub ptype: PType,
    /// The cells of all rows, one behind the other.
    pub values: ByteBuffer,
    /// Which rows hold a value.
    pub validity: Validity,
    /// The number of rows.
    pub len: usize,
    /// The alignment of the values in bytes; a multiple of their width.
    pub alignment: usize,
}

/// A column of byte strings, each described by a view.
#[derive(Debug)]
pub struct VarBinViewArray {
    /// One view per row.
    pub views: Vec<BinaryView>,
    /// The buffers into which the views point.
    pub buffers: Vec<ByteBuffer>,
    /// The logical type.
    pub dtype: DType,
    /// Which rows hold a value.
    pub validity: Validity,
}

/// A column in the representation that its logical type is computed on.
#[derive(Debug)]
pub enum Canonical {
    /// Values of one fixed width.
    Primitive(PrimitiveArray),
    /// Byte strings.
    VarBinView(VarBinViewArray),
    /// A representation that this encoding does not store.
    Other(DType),
}

/// What an encoded array decompresses to.
#[derive(Debug)]
pub enum Decompressed {
    /// Values of one fixed width.
    Primitive(PrimitiveArray),
    /// Byte strings.
    VarBinView(VarBinViewArray),
    /// Nulls only.
    Null { dtype: DType, len: usize },
}

impl PrimitiveArray {
    /// Whether the cells fill the buffer, the validity speaks of every row, and the alignment is
    /// one that cells can keep.
    pub open spec fn wf(self) -> bool {
        &&& self.values@.len() == self.len * self.ptype.width()
        &&& self.validity@.covers(self.len as nat)
        &&& self.alignment > 0
        &&& self.alignment as nat % self.ptype.width() == 0
    }

    /// One flag per row, set where the row holds a value.
    pub open spec fn mask(self) -> Seq<bool> {
        self.validity@.mask(self.len as nat)
    }

    /// The rows.
    pub open spec fn rows(self) -> Rows {
        Seq::new(
            self.len as nat,
            |i: int|
                if self.mask()[i] {
                    Some(cell(self.values@, self.ptype.width(), i))
                } else {
                    None
                },
        )
    }

    /// The logical type.
    pub open spec fn dtype_spec(self) -> DType {
        DType::Primitive(self.ptype, self.validity@.nullability())
    }

    /// Every value has the type's width.
    pub proof fn lemma_present_width(self)
        requires
            self.wf(),
        ensures
            forall|k: int|
                0 <= k < present(self.rows()).len() ==> (#[trigger] present(self.rows())[k]).len()
                    == self.ptype.width(),
    {
        assert forall|i: int| 0 <= i < self.rows().len() implies ((#[trigger] self.rows()[i]) matches Some(
            v,
        ) ==> v.len() == self.ptype.width()) by {
            lemma_cell_bounds(i, self.len as int, self.ptype.width());
        }
        lemma_present_all(self.rows(), |v: Seq<u8>| v.len() == self.ptype.width());
    }

    /// A column with these cells, aligned to their width.
    pub fn new(ptype: PType, values: ByteBuffer, validity: Validity) -> (array: Self)
        requires
            values@.len() % ptype.width() == 0,
            validity@.covers(values@.len() / ptype.width()),
        ensures
            array.wf(),
            array.ptype == ptype,
            array.values == values,
            array.validity == validity,
            array.len == values@.len() / ptype.width(),
            array.alignment == ptype.width(),
    {
        let width: usize = ptype.byte_width();
        let len: usize = values.len() / width;
        proof {
            vstd::arithmetic::div_mod::lemma_fundamental_div_mod(values@.len() as int, width as int);
            assert(width as int * (values@.len() as int / width as int) == (values@.len() as int
                / width as int) * width as int) by (nonlinear_arith);
            vstd::arithmetic::div_mod::lemma_mod_self_0(width as int);
        }
        PrimitiveArray { ptype, values, validity, len, alignment: width }
    }

    /// The same column, its values aligned to `alignment` bytes.
    pub fn with_alignment(self, alignment: usize) -> (array: Self)
        requires
            self.wf(),
            alignment > 0,
            alignment as nat % self.ptype.width() == 0,
        ensures
            array.wf(),
            array.alignment == alignment,
            array.ptype == self.ptype,
            array.values == self.values,
            array.validity == self.validity,
            array.len == self.len,
    {
        PrimitiveArray {
            ptype: self.ptype,
            values: self.values,
            validity: self.validity,
            len: self.len,
            alignment,
        }
    }

    /// The logical type.
    pub fn dtype(&self) -> (dtype: DType)
        ensures
            dtype == self.dtype_spec(),
    {
        DType::Primitive(self.ptype, self.validity.nullability())
    }

    /// A column of `n_rows` rows from the cells of the rows that hold a value; the cell of a null
    /// is all zeros.
    pub fn from_values_byte_buffer(
        packed: ByteBuffer,
        ptype: PType,
        validity: Validity,
        n_rows: usize,
    ) -> (array: Self)
        requires
            validity@.covers(n_rows as nat),
            packed@.len() == valid_count(validity@.mask(n_rows as nat), n_rows as int)
                * ptype.width(),
        ensures
            array.wf(),
            array.ptype == ptype,
            array.validity == validity,
            array.len == n_rows,
            array.alignment == ptype.width(),
            array.values@ == concat(
                scattered_cells(packed@, validity@.mask(n_rows as nat), ptype.width()),
            ),
    {
        let width: usize = ptype.byte_width();
        let ghost mask = validity@.mask(n_rows as nat);
        proof {
            lemma_scattered_rows(packed@, mask, width as nat);
            vstd::arithmetic::div_mod::lemma_mod_self_0(width as int);
        }
        let values: ByteBuffer = match &validity {
            Validity::NonNullable | Validity::AllValid => {
                proof {
                    crate::validity::lemma_valid_count_constant(mask, n_rows as int, true);
                    lemma_scatter_all(packed@, mask, width as nat);
                }
                packed
            },
            _ => {
                let flags: Vec<bool> = validity.execute_mask(n_rows);
                ByteBuffer::new(scatter(packed.as_slice(), &flags, width))
            },
        };
        PrimitiveArray { ptype, values, validity, len: n_rows, alignment: width }
    }

    /// The bytes of a row's value, or `None` for a null.
    pub fn value_at(&self, i: usize) -> (value: Option<&[u8]>)
        requires
            self.wf(),
            i < self.len,
        ensures
            match value {
                Some(v) => self.rows()[i as int] == Some(v@),
                None => self.rows()[i as int] is None,
            },
    {
        let valid: bool = match &self.validity {
            Validity::NonNullable | Validity::AllValid => true,
            Validity::AllInvalid => false,
            Validity::Array(flags) => flags[i],
        };
        if valid {
            let width: usize = self.ptype.byte_width();
            let bytes: &[u8] = self.values.as_slice();
            proof {
                lemma_cell_bounds(i as int, self.len as int, width as nat);
                assert(i * width + width <= bytes.len());
            }
            let start: usize = i * width;
            Some(&bytes[start..start + width])
        } else {
            None
        }
    }
}

/// For each row the cell that holds its value, and a cell of zeros for a null.
fn scatter(packed: &[u8], flags: &Vec<bool>, width: usize) -> (cells: Vec<u8>)
    requires
        width > 0,
        packed@.len() == valid_count(flags@, flags@.len() as int) * width,
    ensures
        cells@ == concat(scattered_cells(packed@, flags@, width as nat)),
{
    let ghost parts = scattered_cells(packed@, flags@, width as nat);
    let mut out: Vec<u8> = Vec::new();
    let mut used: usize = 0;
    let mut i: usize = 0;
    assert(parts.take(0) =~= Seq::<Seq<u8>>::empty());
    while i < flags.len()
        invariant
            width > 0,
            packed@.len() == valid_count(flags@, flags@.len() as int) * width,
            parts == scattered_cells(packed@, flags@, width as nat),
            i <= flags@.len(),
            used == valid_count(flags@, i as int) * width,
            out@ == concat(parts.take(i as int)),
        decreases flags@.len() - i,
    {
        let ghost k = valid_count(flags@, i as int) as int;
        proof {
            lemma_valid_count_bounds(flags@, i + 1, flags@.len() as int);
            assert(parts.take(i + 1) =~= parts.take(i as int).push(parts[i as int]));
            lemma_concat_push(parts.take(i as int), parts[i as int]);
        }
        if flags[i] {
            proof {
                lemma_cell_bounds(
                    k,
                    valid_count(flags@, flags@.len() as int) as int,
                    width as nat,
                );
                assert(used + width <= packed.len());
            }
            push_bytes(&mut out, &packed[used..used + width]);
            used += width;
        } else {
            let zeros: Vec<u8> = vec![0u8; width];
            assert(zeros@ =~= zero_cell(width as nat));
            push_bytes(&mut out, zeros.as_slice());
        }
        i += 1;
    }
    assert(parts.take(flags@.len() as int) =~= parts);
    out
}

impl VarBinViewArray {
    /// One flag per row, set where the row holds a value.
    pub open spec fn mask(self) -> Seq<bool> {
        self.validity@.mask(self.views@.len())
    }

    /// Whether the type is one of byte strings, the validity goes with it and speaks of every row,
    /// and the view of every row that holds a value lies within the buffers.
    pub open spec fn wf(self) -> bool {
        &&& self.dtype is Utf8 || self.dtype is Binary
        &&& self.validity@.nullability() == self.dtype.nullability_spec()
        &&& self.validity@.covers(self.views@.len())
        &&& forall|i: int|
            0 <= i < self.views@.len() && self.mask()[i] ==> (#[trigger] self.views@[i])@.in_bounds(
                buffer_bytes(self.buffers@),
            )
    }

    /// The rows.
    pub open spec fn rows(self) -> Rows {
        Seq::new(
            self.views@.len(),
            |i: int|
                if self.mask()[i] {
                    Some(self.views@[i]@.value(buffer_bytes(self.buffers@)))
                } else {
                    None
                },
        )
    }

    /// The length of every value fits a view's size field.
    pub proof fn lemma_present_lens(self)
        requires
            self.wf(),
        ensures
            forall|k: int|
                0 <= k < present(self.rows()).len() ==> (#[trigger] present(self.rows())[k]).len()
                    <= u32::MAX,
    {
        assert forall|i: int| 0 <= i < self.rows().len() implies ((#[trigger] self.rows()[i]) matches Some(
            v,
        ) ==> v.len() <= u32::MAX) by {
            if self.mask()[i] {
                assert(self.views@[i]@.in_bounds(buffer_bytes(self.buffers@)));
            }
        }
        lemma_present_all(self.rows(), |v: Seq<u8>| v.len() <= u32::MAX);
    }

    /// The number of rows.
    pub fn len(&self) -> (len: usize)
        ensures
            len == self.views@.len(),
    {
        self.views.len()
    }

    /// The value of a row, or `None` for a null.
    pub fn value_at(&self, i: usize) -> (value: Option<&[u8]>)
        requires
            self.wf(),
            i < self.views@.len(),
        ensures
            match value {
                Some(v) => self.rows()[i as int] == Some(v@),
                None => self.rows()[i as int] is None,
            },
    {
        let valid: bool = match &self.validity {
            Validity::NonNullable | Validity::AllValid => true,
            Validity::AllInvalid => false,
            Validity::Array(flags) => flags[i],
        };
        if valid {
            Some(self.views[i].value(&self.buffers))
        } else {
            None
        }
    }
}

impl Decompressed {
    /// Whether the column within is well-formed.
    pub open spec fn wf(self) -> bool {
        match self {
            Decompressed::Primitive(array) => array.wf(),
            Decompressed::VarBinView(array) => array.wf(),
            Decompressed::Null { dtype: _, len: _ } => true,
        }
    }

    /// The logical type.
    pub open spec fn dtype_spec(self) -> DType {
        match self {
            Decompressed::Primitive(array) => array.dtype_spec(),
            Decompressed::VarBinView(array) => array.dtype,
            Decompressed::Null { dtype, len: _ } => dtype,
        }
    }

    /// The logical type.
    pub fn dtype(&self) -> (dtype: DType)
        ensures
            dtype == self.dtype_spec(),
    {
        match self {
            Decompressed::Primitive(array) => array.dtype(),
            Decompressed::VarBinView(array) => array.dtype,
            Decompressed::Null { dtype, len: _ } => *dtype,
        }
    }

    /// The number of rows.
    pub fn len(&self) -> (len: usize)
        ensures
            len == self.rows().len(),
    {
        match self {
            Decompressed::Primitive(array) => array.len,
            Decompressed::VarBinView(array) => array.len(),
            Decompressed::Null { dtype: _, len } => *len,
        }
    }

    /// The rows.
    pub open spec fn rows(self) -> Rows {
        match self {
            Decompressed::Primitive(array) => array.rows(),
            Decompressed::VarBinView(array) => array.rows(),
            Decompressed::Null { dtype: _, len } => Seq::new(len as nat, |i: int| None),
        }
    }

    /// The value of a row, or `None` for a null.
    pub fn value_at(&self, i: usize) -> (value: Option<&[u8]>)
        requires
            self.wf(),
            i < self.rows().len(),
        ensures
            match value {
                Some(v) => self.rows()[i as int] == Some(v@),
                None => self.rows()[i as int] is None,
            },
    {
        match self {
            Decompressed::Primitive(array) => array.value_at(i),
            Decompressed::VarBinView(array) => array.value_at(i),
            Decompressed::Null { dtype: _, len: _ } => None,
        }
    }
}

/// The cells of the rows that hold a value.
pub fn collect_valid_primitive(array: &PrimitiveArray) -> (packed: ByteBuffer)
    requires
        array.wf(),
    ensures
        packed@ == concat(present(array.rows())),
{
    let width: usize = array.ptype.byte_width();
    let flags: Vec<bool> = array.validity.execute_mask(array.len);
    let bytes: &[u8] = array.values.as_slice();
    let ghost rows = array.rows();
    let mut out: Vec<u8> = Vec::new();
    let mut i: usize = 0;
    assert(rows.take(0) =~= Seq::<Option<Seq<u8>>>::empty());
    while i < array.len
        invariant
            array.wf(),
            rows == array.rows(),
            width == array.ptype.width(),
            bytes@ == array.values@,
            flags@ == array.mask(),
            flags@.len() == array.len,
            i <= array.len,
            out@ == concat(present(rows.take(i as int))),
        decreases array.len - i,
    {
        proof {
            lemma_cell_bounds(i as int, array.len as int, width as nat);
            assert(i * width + width <= bytes.len());
            assert(rows.take(i + 1).drop_last() =~= rows.take(i as int));
            if flags@[i as int] {
                lemma_concat_push(present(rows.take(i as int)), rows[i as int]->0);
            }
        }
        if flags[i] {
            let start: usize = i * width;
            push_bytes(&mut out, &bytes[start..start + width]);
        }
        i += 1;
    }
    assert(rows.take(array.len as int) =~= rows);
    ByteBuffer::new(out)
}

/// The values of the rows that hold one, each behind its length, and where each length stands.
pub fn collect_valid_vbv(array: &VarBinViewArray) -> (collected: (ByteBuffer, Vec<usize>))
    requires
        array.wf(),
    ensures
        collected.0@ == concat(all_prefixed(present(array.rows()))),
        collected.1@.len() == present(array.rows()).len(),
        forall|k: int|
            0 <= k < collected.1@.len() ==> #[trigger] collected.1@[k] == value_start(
                present(array.rows()),
                k,
            ),
{
    let ghost rows = array.rows();
    let mut buffer: Vec<u8> = Vec::new();
    let mut value_byte_indices: Vec<usize> = Vec::new();
    let mut i: usize = 0;
    proof {
        assert(rows.take(0) =~= Seq::<Option<Seq<u8>>>::empty());
        assert(all_prefixed(Seq::<Seq<u8>>::empty()) =~= Seq::<Seq<u8>>::empty());
    }
    while i < array.len()
        invariant
            array.wf(),
            rows == array.rows(),
            i <= array.views@.len(),
            rows.len() == array.views@.len(),
            buffer@ == concat(all_prefixed(present(rows.take(i as int)))),
            value_byte_indices@.len() == present(rows.take(i as int)).len(),
            forall|k: int|
                0 <= k < value_byte_indices@.len() ==> #[trigger] value_byte_indices@[k]
                    == value_start(present(rows.take(i as int)), k),
        decreases array.views@.len() - i,
    {
        let ghost before = present(rows.take(i as int));
        let ghost after = present(rows.take(i + 1));
        assert(rows.take(i + 1).drop_last() =~= rows.take(i as int));
        if let Some(value) = array.value_at(i) {
            proof {
                assert(after == before.push(value@));
                assert(all_prefixed(after) =~= all_prefixed(before).push(prefixed(value@)));
                lemma_concat_push(all_prefixed(before), prefixed(value@));
                lemma_value_start(before, before.len() as int);
                assert(all_prefixed(before).take(before.len() as int) =~= all_prefixed(before));
                assert forall|k: int| 0 <= k <= before.len() implies value_start(after, k)
                    == #[trigger] value_start(before, k) by {
                    lemma_value_start_prefix(before, after, k);
                }
                assert(value@.len() <= u32::MAX);
            }
            value_byte_indices.push(buffer.len());
            let ghost start = buffer@;
            push_le_u32(&mut buffer, value.len() as u32);
            push_bytes(&mut buffer, value);
            assert(buffer@ =~= start + prefixed(value@));
        }
        i += 1;
    }
    assert(rows.take(array.views@.len() as int) =~= rows);
    (ByteBuffer::new(buffer), value_byte_indices)
}

/// Where a value stands depends on the values before it only.
proof fn lemma_value_start_prefix(a: Seq<Seq<u8>>, b: Seq<Seq<u8>>, k: int)
    requires
        0 <= k <= a.len(),
        k <= b.len(),
        forall|i: int| 0 <= i < k ==> a[i] == b[i],
    ensures
        value_start(a, k) == value_start(b, k),
    decreases k,
{
    if k > 0 {
        lemma_value_start_prefix(a, b, k - 1);
    }
}

/// The rows of a column of fixed width, byte by byte: row `i` is null where the validity says so,
/// and else the cell that starts at the byte `i * width`.
pub proof fn law_primitive_row(array: PrimitiveArray, i: int)
    requires
        array.wf(),
        0 <= i < array.len,
    ensures
        array.rows().len() == array.len,
        array.rows()[i] is Some <==> array.validity@.mask(array.len as nat)[i],
        array.rows()[i] matches Some(value) ==> {
            &&& value.len() == array.ptype.width()
            &&& forall|j: int|
                0 <= j < value.len() ==> 0 <= i * array.ptype.width() + j < array.values@.len()
                    && #[trigger] value[j] == array.values@[i * array.ptype.width() + j]
        },
{
    lemma_cell_bounds(i, array.len as int, array.ptype.width());
}

/// A column of 64-bit values has one row for every eight bytes, one of 32-bit values for every four,
/// one of 16-bit values for every two, and one of 8-bit values for every byte; each row that holds a
/// value holds that many bytes.
pub proof fn law_row_width_by_type(array: PrimitiveArray, i: int)
    requires
        array.wf(),
        0 <= i < array.len,
    ensures
        array.ptype is U64 || array.ptype is I64 || array.ptype is F64 ==> {
            &&& array.values@.len() == 8 * array.len
            &&& array.rows()[i] matches Some(value) ==> value == array.values@.subrange(
                8 * i,
                8 * i + 8,
            )
        },
        array.ptype is U32 || array.ptype is I32 || array.ptype is F32 ==> {
            &&& array.values@.len() == 4 * array.len
            &&& array.rows()[i] matches Some(value) ==> value == array.values@.subrange(
                4 * i,
                4 * i + 4,
            )
        },
        array.ptype is U16 || array.ptype is I16 || array.ptype is F16 ==> {
            &&& array.values@.len() == 2 * array.len
            &&& array.rows()[i] matches Some(value) ==> value == array.values@.subrange(
                2 * i,
                2 * i + 2,
            )
        },
        array.ptype is U8 || array.ptype is I8 ==> {
            &&& array.values@.len() == array.len
            &&& array.rows()[i] matches Some(value) ==> value == array.values@.subrange(i, i + 1)
        },
{
    let width = array.ptype.width();
    lemma_cell_bounds(i, array.len as int, width);
    assert(width == 8 ==> i * width == 8 * i && array.len * width == 8 * array.len)
        by (nonlinear_arith);
    assert(width == 4 ==> i * width == 4 * i && array.len * width == 4 * array.len)
        by (nonlinear_arith);
    assert(width == 2 ==> i * width == 2 * i && array.len * width == 2 * array.len)
        by (nonlinear_arith);
    assert(width == 1 ==> i * width == i && array.len * width == array.len) by (nonlinear_arith);
}

/// The rows of a column of byte strings: row `i` is null where the validity says so. Else its view
/// gives it: a view that holds its value gives the bytes it holds, up to its size, and one that
/// refers to a buffer the bytes of that buffer from its offset on, as many as its size.
pub proof fn law_var_bin_row(array: VarBinViewArray, i: int)
    requires
        array.wf(),
        0 <= i < array.views@.len(),
    ensures
        array.rows().len() == array.views@.len(),
        array.rows()[i] is Some <==> array.validity@.mask(array.views@.len())[i],
        array.rows()[i] matches Some(value) ==> match array.views@[i] {
            BinaryView::Inlined { size, data } => value == data@.take(size as int),
            BinaryView::Ref { size, prefix: _, buffer_index, offset } => value
                == array.buffers@[buffer_index as int]@.subrange(
                offset as int,
                offset as int + size as int,
            ),
        },
{
}

/// What makes a column of fixed width well-formed: as many cells of the type's width as rows, a
/// validity that speaks of every row, and an alignment that is a multiple of the width.
pub proof fn law_primitive_wf(array: PrimitiveArray)
    ensures
        array.wf() <==> {
            &&& array.values@.len() == array.len * array.ptype.width()
            &&& array.validity matches Validity::Array(flags) ==> flags@.len() == array.len
            &&& array.alignment > 0
            &&& array.alignment as int % array.ptype.width() as int == 0
        },
{
}

/// What makes a column of byte strings well-formed: a type of byte strings, a validity that admits
/// nulls exactly where the type does and speaks of every row, and a view within the buffers in every
/// row that holds a value.
pub proof fn law_var_bin_wf(array: VarBinViewArray)
    ensures
        array.wf() <==> {
            &&& array.dtype is Utf8 || array.dtype is Binary
            &&& array.validity is NonNullable <==> !array.dtype.nullable()
            &&& array.validity matches Validity::Array(flags) ==> flags@.len()
                == array.views@.len()
            &&& forall|i: int|
                0 <= i < array.views@.len() && (match array.validity {
                    Validity::NonNullable | Validity::AllValid => true,
                    Validity::AllInvalid => false,
                    Validity::Array(flags) => flags@[i],
                }) ==> (#[trigger] array.views@[i])@.in_bounds(buffer_bytes(array.buffers@))
        },
{
}

/// A column's type is that of its values, and admits nulls exactly where its validity does.
pub proof fn law_primitive_dtype(array: PrimitiveArray)
    ensures
        array.dtype_spec() matches DType::Primitive(ptype, nullability) && ptype == array.ptype && (
        nullability is NonNullable <==> array.validity is NonNullable),
{
}

/// What was decompressed has the rows and the type of the column within, and nulls alone have no
/// other row.
pub proof fn law_decompressed_rows(array: Decompressed)
    ensures
        array matches Decompressed::Primitive(parray) ==> array.rows() == parray.rows()
            && array.dtype_spec() == parray.dtype_spec(),
        array matches Decompressed::VarBinView(vbv) ==> array.rows() == vbv.rows()
            && array.dtype_spec() == vbv.dtype,
        array matches Decompressed::Null { dtype, len } ==> {
            &&& array.dtype_spec() == dtype
            &&& array.rows().len() == len
            &&& forall|i: int| 0 <= i < len ==> (#[trigger] array.rows()[i]) is None
        },
{
}

/// What was decompressed is well-formed where the column within is.
pub proof fn law_decompressed_wf(array: Decompressed)
    ensures
        array matches Decompressed::Primitive(parray) ==> (array.wf() <==> parray.wf()),
        array matches Decompressed::VarBinView(vbv) ==> (array.wf() <==> vbv.wf()),
        array is Null ==> array.wf(),
{
}

/// A column that is made of cells has one row for each, and keeps its rows however it is aligned.
pub proof fn law_new_primitive_calls(
    ptype: PType,
    values: ByteBuffer,
    validity: Validity,
    array: PrimitiveArray,
    alignment: usize,
    aligned: PrimitiveArray,
)
    requires
        values@.len() % ptype.width() == 0,
        validity@.covers(values@.len() / ptype.width()),
        call_ensures(PrimitiveArray::new, (ptype, values, validity), array),
        call_ensures(PrimitiveArray::with_alignment, (array, alignment), aligned),
    ensures
        array.wf(),
        array.values@ == values@,
        array.validity@ == validity@,
        array.len * ptype.width() == values@.len(),
        array.alignment == ptype.width(),
        aligned.rows() == array.rows(),
        aligned.len == array.len,
        aligned.alignment == alignment,
{
    assert(aligned.rows() =~= array.rows());
}

/// The value of a row of a column of fixed width is its cell, byte for byte, and there is none where
/// the validity says that the row is null.
pub proof fn law_primitive_value_calls(array: PrimitiveArray, i: usize, value: Option<&[u8]>)
    requires
        array.wf(),
        i < array.len,
        call_ensures(PrimitiveArray::value_at, (&array, i), value),
    ensures
        value is Some <==> array.validity@.mask(array.len as nat)[i as int],
        value matches Some(bytes) ==> {
            &&& bytes@.len() == array.ptype.width()
            &&& forall|j: int|
                0 <= j < bytes@.len() ==> #[trigger] bytes@[j] == array.values@[i
                    * array.ptype.width() + j]
        },
{
    law_primitive_row(array, i as int);
}

/// The value of a row of a column of byte strings is what its view gives, and there is none where
/// the validity says that the row is null.
pub proof fn law_var_bin_value_calls(array: VarBinViewArray, i: usize, value: Option<&[u8]>)
    requires
        array.wf(),
        i < array.views@.len(),
        call_ensures(VarBinViewArray::value_at, (&array, i), value),
    ensures
        value is Some <==> array.validity@.mask(array.views@.len())[i as int],
        value matches Some(bytes) ==> match array.views@[i as int] {
            BinaryView::Inlined { size, data } => bytes@ == data@.take(size as int),
            BinaryView::Ref { size, prefix: _, buffer_index, offset } => bytes@
                == array.buffers@[buffer_index as int]@.subrange(
                offset as int,
                offset as int + size as int,
            ),
        },
{
    law_var_bin_row(array, i as int);
}

/// A column made of the packed cells of the rows that hold a value has those cells in those rows, in
/// their order, and zeros in the others.
pub proof fn law_scattered_column_calls(
    packed: ByteBuffer,
    ptype: PType,
    validity: Validity,
    n_rows: usize,
    array: PrimitiveArray,
    i: int,
    j: int,
)
    requires
        validity@.covers(n_rows as nat),
        packed@.len() == valid_count(validity@.mask(n_rows as nat), n_rows as int) * ptype.width(),
        call_ensures(
            PrimitiveArray::from_values_byte_buffer,
            (packed, ptype, validity, n_rows),
            array,
        ),
        0 <= i < n_rows,
        0 <= j < ptype.width(),
    ensures
        array.wf(),
        array.len == n_rows,
        array.ptype == ptype,
        array.validity@ == validity@,
        ({
            let mask = validity@.mask(n_rows as nat);
            let width = ptype.width();
            array.values@[i * width + j] == if mask[i] {
                packed@[valid_count(mask, i) * width + j]
            } else {
                0
            }
        }),
{
    law_scattered_bytes(packed@, validity@.mask(n_rows as nat), ptype.width(), i, j);
}

} // verus!
