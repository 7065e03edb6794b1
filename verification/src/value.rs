//! Runtime values and their scalar tags.

use vstd::prelude::*;

verus! {

/// Tag of a value: one per scalar type, and three for what is not a scalar.
#[derive(Clone, Copy, Debug, PartialEq, Eq, Structural, Hash)]
pub enum ValueTag {
    I8,
    I16,
    I32,
    I64,
    I128,
    U8,
    U16,
    U32,
    U64,
    U128,
    Isize,
    Usize,
    F16,
    F32,
    F64,
    F128,
    Bool,
    Char,
    Null,
    Void,
    Ref,
}

/// Type family of a tag: comparison and conversion dispatch on it.
#[derive(Clone, Copy, Debug, PartialEq, Eq, Structural, Hash)]
pub enum TypeFamily {
    Int,
    Uint,
    Float,
    Bool,
    Char,
    Other,
}

impl ValueTag {
    pub open spec fn spec_family(self) -> TypeFamily {
        match self {
            ValueTag::I8 | ValueTag::I16 | ValueTag::I32 | ValueTag::I64 | ValueTag::I128
            | ValueTag::Isize => TypeFamily::Int,
            ValueTag::U8 | ValueTag::U16 | ValueTag::U32 | ValueTag::U64 | ValueTag::U128
            | ValueTag::Usize => TypeFamily::Uint,
            ValueTag::F16 | ValueTag::F32 | ValueTag::F64 | ValueTag::F128 => TypeFamily::Float,
            ValueTag::Bool => TypeFamily::Bool,
            ValueTag::Char => TypeFamily::Char,
            _ => TypeFamily::Other,
        }
    }

    /// The family that the tag belongs to.
    pub fn family(self) -> (r: TypeFamily)
        ensures
            r == self.spec_family(),
    {
        match self {
            ValueTag::I8 | ValueTag::I16 | ValueTag::I32 | ValueTag::I64 | ValueTag::I128
            | ValueTag::Isize => TypeFamily::Int,
            ValueTag::U8 | ValueTag::U16 | ValueTag::U32 | ValueTag::U64 | ValueTag::U128
            | ValueTag::Usize => TypeFamily::Uint,
            ValueTag::F16 | ValueTag::F32 | ValueTag::F64 | ValueTag::F128 => TypeFamily::Float,
            ValueTag::Bool => TypeFamily::Bool,
            ValueTag::Char => TypeFamily::Char,
            _ => TypeFamily::Other,
        }
    }
}

/// Binary arithmetic and bitwise operations.
#[derive(Clone, Copy, Debug, PartialEq, Eq, Structural, Hash)]
pub enum BinOp {
    Add,
    Sub,
    Mul,
    Div,
    Mod,
    BitAnd,
    BitOr,
    BitXor,
    Shl,
    Shr,
}

/// Comparisons.
#[derive(Clone, Copy, Debug, PartialEq, Eq, Structural, Hash)]
pub enum CmpOp {
    Eq,
    Ne,
    Lt,
    Gt,
    Le,
    Ge,
}

/// Unary operations.
#[derive(Clone, Copy, Debug, PartialEq, Eq, Structural, Hash)]
pub enum UnaryOp {
    Neg,
    Not,
    BitNot,
}

/// A runtime value.
///
/// Floating-point values are held as their bit patterns. A heap object is
/// opaque here: `Object` carries the handle by which the runtime finds it.
#[derive(Debug)]
pub enum Value {
    Null,
    Void,
    I8(i8),
    I16(i16),
    I32(i32),
    I64(i64),
    I128(i128),
    U8(u8),
    U16(u16),
    U32(u32),
    U64(u64),
    U128(u128),
    Isize(isize),
    Usize(usize),
    F16(u16),
    F32(u32),
    F64(u64),
    F128(u128),
    Bool(bool),
    Char(char),
    Str(String),
    Object(u64),
}

impl Clone for Value {
    fn clone(&self) -> (r: Self)
        ensures
            r == *self,
    {
        match self {
            Value::Null => Value::Null,
            Value::Void => Value::Void,
            Value::I8(v) => Value::I8(*v),
            Value::I16(v) => Value::I16(*v),
            Value::I32(v) => Value::I32(*v),
            Value::I64(v) => Value::I64(*v),
            Value::I128(v) => Value::I128(*v),
            Value::U8(v) => Value::U8(*v),
            Value::U16(v) => Value::U16(*v),
            Value::U32(v) => Value::U32(*v),
            Value::U64(v) => Value::U64(*v),
            Value::U128(v) => Value::U128(*v),
            Value::Isize(v) => Value::Isize(*v),
            Value::Usize(v) => Value::Usize(*v),
            Value::F16(v) => Value::F16(*v),
            Value::F32(v) => Value::F32(*v),
            Value::F64(v) => Value::F64(*v),
            Value::F128(v) => Value::F128(*v),
            Value::Bool(v) => Value::Bool(*v),
            Value::Char(v) => Value::Char(*v),
            Value::Str(v) => Value::Str(v.clone()),
            Value::Object(v) => Value::Object(*v),
        }
    }
}

impl Value {
    /// Whether the value is null.
    pub fn is_null(&self) -> (r: bool)
        ensures
            r == (*self is Null),
    {
        matches!(self, Value::Null)
    }
}

} // verus!
