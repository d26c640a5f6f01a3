//! Logical types.

use vstd::prelude::*;

verus! {

/// A fixed-width primitive type.
#[derive(Clone, Copy, Debug, PartialEq, Eq, Structural)]
pub enum PType {
    U8,
    U16,
    U32,
    U64,
    I8,
    I16,
    I32,
    I64,
    F16,
    F32,
    F64,
}

/// Whether a logical type admits nulls.
#[derive(Clone, Copy, Debug, PartialEq, Eq, Structural)]
pub enum Nullability {
    NonNullable,
    Nullable,
}

/// The logical type of a column.
#[derive(Clone, Copy, Debug, PartialEq, Eq, Structural)]
pub enum DType {
    /// Values of one fixed width.
    Primitive(PType, Nullability),
    /// Text.
    Utf8(Nullability),
    /// Byte strings.
    Binary(Nullability),
    /// Any logical type that this encoding does not store.
    Other(Nullability),
}

impl PType {
    /// The width of one value in bytes.
    pub open spec fn width(self) -> nat {
        match self {
            PType::U8 | PType::I8 => 1,
            PType::U16 | PType::I16 | PType::F16 => 2,
            PType::U32 | PType::I32 | PType::F32 => 4,
            PType::U64 | PType::I64 | PType::F64 => 8,
        }
    }

    /// The width of one value in bytes.
    pub fn byte_width(self) -> (width: usize)
        ensures
            width == self.width(),
            self is U8 || self is I8 ==> width == 1,
            self is U16 || self is I16 || self is F16 ==> width == 2,
            self is U32 || self is I32 || self is F32 ==> width == 4,
            self is U64 || self is I64 || self is F64 ==> width == 8,
    {
        match self {
            PType::U8 | PType::I8 => 1,
            PType::U16 | PType::I16 | PType::F16 => 2,
            PType::U32 | PType::I32 | PType::F32 => 4,
            PType::U64 | PType::I64 | PType::F64 => 8,
        }
    }
}

impl DType {
    /// Whether the type admits nulls.
    pub open spec fn nullable(self) -> bool {
        self.nullability_spec() == Nullability::Nullable
    }

    /// The type's nullability.
    pub open spec fn nullability_spec(self) -> Nullability {
        match self {
            DType::Primitive(_, n) => n,
            DType::Utf8(n) => n,
            DType::Binary(n) => n,
            DType::Other(n) => n,
        }
    }

    /// The type's nullability.
    pub fn nullability(&self) -> (nullability: Nullability)
        ensures
            nullability == self.nullability_spec(),
            *self matches DType::Primitive(_, n) ==> nullability == n,
            *self matches DType::Utf8(n) ==> nullability == n,
            *self matches DType::Binary(n) ==> nullability == n,
            *self matches DType::Other(n) ==> nullability == n,
    {
        match self {
            DType::Primitive(_, n) => *n,
            DType::Utf8(n) => *n,
            DType::Binary(n) => *n,
            DType::Other(n) => *n,
        }
    }

    /// Whether the type admits nulls.
    pub fn is_nullable(&self) -> (nullable: bool)
        ensures
            nullable == self.nullable(),
            *self matches DType::Primitive(_, n) ==> nullable == (n is Nullable),
            *self matches DType::Utf8(n) ==> nullable == (n is Nullable),
            *self matches DType::Binary(n) ==> nullable == (n is Nullable),
            *self matches DType::Other(n) ==> nullable == (n is Nullable),
    {
        match self.nullability() {
            Nullability::Nullable => true,
            Nullability::NonNullable => false,
        }
    }
}

/// The width of a primitive type is the number of bytes in its name's bits: eight bits to the
/// byte.
pub proof fn law_width_is_bits_by_eight(ptype: PType)
    ensures
        ptype is U8 || ptype is I8 ==> 8 * ptype.width() == 8,
        ptype is U16 || ptype is I16 || ptype is F16 ==> 8 * ptype.width() == 16,
        ptype is U32 || ptype is I32 || ptype is F32 ==> 8 * ptype.width() == 32,
        ptype is U64 || ptype is I64 || ptype is F64 ==> 8 * ptype.width() == 64,
{
}

/// The width of an integer type is the size of the integer that Rust has under the same name.
pub proof fn law_width_is_size_of_integer()
    ensures
        PType::U8.width() == vstd::layout::size_of::<u8>(),
        PType::I8.width() == vstd::layout::size_of::<i8>(),
        PType::U16.width() == vstd::layout::size_of::<u16>(),
        PType::I16.width() == vstd::layout::size_of::<i16>(),
        PType::U32.width() == vstd::layout::size_of::<u32>(),
        PType::I32.width() == vstd::layout::size_of::<i32>(),
        PType::U64.width() == vstd::layout::size_of::<u64>(),
        PType::I64.width() == vstd::layout::size_of::<i64>(),
{
    broadcast use vstd::layout::layout_of_primitives;

}

/// A type has the nullability that it was made with.
pub proof fn law_type_keeps_nullability(ptype: PType, nullability: Nullability)
    ensures
        DType::Primitive(ptype, nullability).nullability_spec() == nullability,
        DType::Utf8(nullability).nullability_spec() == nullability,
        DType::Binary(nullability).nullability_spec() == nullability,
        DType::Other(nullability).nullability_spec() == nullability,
        DType::Primitive(ptype, nullability).nullable() == (nullability is Nullable),
        DType::Utf8(nullability).nullable() == (nullability is Nullable),
        DType::Binary(nullability).nullable() == (nullability is Nullable),
        DType::Other(nullability).nullable() == (nullability is Nullable),
{
}

/// What [`PType::byte_width`] returns is the type's number of bits, eight to the byte.
pub proof fn law_byte_width(ptype: PType, width: usize)
    requires
        call_ensures(PType::byte_width, (ptype,), width),
    ensures
        ptype is U8 || ptype is I8 ==> width == 1,
        ptype is U16 || ptype is I16 || ptype is F16 ==> width == 2,
        ptype is U32 || ptype is I32 || ptype is F32 ==> width == 4,
        ptype is U64 || ptype is I64 || ptype is F64 ==> width == 8,
{
}

} // verus!
