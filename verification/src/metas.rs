//! Shapes shared by the whole codec: the eight primitive element kinds, field
//! descriptors, schemas, the body encoding mode, and the sensor viewpoint.

use vstd::prelude::*;

verus! {

/// Bit pattern of the double-precision value one, used by the default viewpoint
/// quaternion.
pub const DOUBLE_ONE_BITS: u64 = 0x3FF0000000000000;

/// The eight primitive element kinds a field can hold. `F32` and `F64` stand
/// for single- and double-precision IEEE-754 values, carried as bit patterns.
#[derive(Clone, Copy, PartialEq, Eq, Structural, Debug, Hash)]
pub enum ValueKind {
    I8,
    I16,
    I32,
    U8,
    U16,
    U32,
    F32,
    F64,
}

impl ValueKind {
    /// Width in bytes of one element of this kind in a binary chunk.
    pub open spec fn spec_size(self) -> nat {
        match self {
            ValueKind::I8 => 1,
            ValueKind::I16 => 2,
            ValueKind::I32 => 4,
            ValueKind::U8 => 1,
            ValueKind::U16 => 2,
            ValueKind::U32 => 4,
            ValueKind::F32 => 4,
            ValueKind::F64 => 8,
        }
    }

    /// Width in bytes of one element of this kind in a binary chunk.
    pub fn size(self) -> (r: usize)
        ensures
            r == self.spec_size(),
    {
        match self {
            ValueKind::I8 => 1,
            ValueKind::I16 => 2,
            ValueKind::I32 => 4,
            ValueKind::U8 => 1,
            ValueKind::U16 => 2,
            ValueKind::U32 => 4,
            ValueKind::F32 => 4,
            ValueKind::F64 => 8,
        }
    }

    /// The header's TYPE letter for this kind: `U`, `I` or `F`, as a byte.
    pub open spec fn spec_type_byte(self) -> u8 {
        match self {
            ValueKind::U8 | ValueKind::U16 | ValueKind::U32 => 85,
            ValueKind::I8 | ValueKind::I16 | ValueKind::I32 => 73,
            ValueKind::F32 | ValueKind::F64 => 70,
        }
    }

    /// The header's TYPE letter for this kind: `U`, `I` or `F`, as a byte.
    pub fn type_byte(self) -> (r: u8)
        ensures
            r == self.spec_type_byte(),
    {
        match self {
            ValueKind::U8 | ValueKind::U16 | ValueKind::U32 => 85,
            ValueKind::I8 | ValueKind::I16 | ValueKind::I32 => 73,
            ValueKind::F32 | ValueKind::F64 => 70,
        }
    }
}

/// Describes one field of a point: an optional header name, the element kind,
/// and how many elements of that kind the field holds.
#[derive(Clone, Debug)]
pub struct FieldDef {
    pub name: String,
    pub kind: ValueKind,
    pub count: usize,
}

/// An ordered field layout for one point. Order is significant: it matches the
/// physical layout of the header and of every body record.
#[derive(Clone, Debug)]
pub struct Schema {
    pub fields: Vec<FieldDef>,
}

impl View for Schema {
    type V = Seq<FieldDef>;

    open spec fn view(&self) -> Seq<FieldDef> {
        self.fields@
    }
}

impl Schema {
    /// Total number of scalar elements one record holds: the sum of all field
    /// counts.
    pub open spec fn spec_total_count(self) -> int {
        total_count_of(self.fields@)
    }

    pub fn new(fields: Vec<FieldDef>) -> (r: Schema)
        ensures
            r.fields@ == fields@,
    {
        Schema { fields }
    }

    pub fn len(&self) -> (r: usize)
        ensures
            r == self.fields@.len(),
    {
        self.fields.len()
    }
}

/// The sum of the element counts of a field sequence prefix.
pub open spec fn total_count_of(fields: Seq<FieldDef>) -> int
    decreases fields.len(),
{
    if fields.len() == 0 {
        0
    } else {
        total_count_of(fields.drop_last()) + fields.last().count
    }
}

/// Whether the body holds ASCII token lines or packed binary chunks.
#[derive(Clone, Copy, PartialEq, Eq, Structural, Debug)]
pub enum DataKind {
    ASCII,
    Binary,
}

/// Sensor pose metadata carried verbatim in the header: three translation
/// components and a quaternion, each a double-precision bit pattern.
#[derive(Clone, Copy, PartialEq, Eq, Structural, Debug)]
pub struct ViewPoint {
    pub tx: u64,
    pub ty: u64,
    pub tz: u64,
    pub qw: u64,
    pub qx: u64,
    pub qy: u64,
    pub qz: u64,
}

impl Default for ViewPoint {
    /// The identity pose: zero translation, unit quaternion.
    fn default() -> (r: Self)
        ensures
            r == (ViewPoint {
                tx: 0,
                ty: 0,
                tz: 0,
                qw: DOUBLE_ONE_BITS,
                qx: 0,
                qy: 0,
                qz: 0,
            }),
    {
        ViewPoint { tx: 0, ty: 0, tz: 0, qw: DOUBLE_ONE_BITS, qx: 0, qy: 0, qz: 0 }
    }
}

} // verus!
