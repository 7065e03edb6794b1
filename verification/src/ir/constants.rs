//! Constants and the values that they stand for.

use super::types::{ConstValue, ScalarMeta};
use crate::value::{Value, ValueTag};
use vstd::prelude::*;
use vstd::slice::slice_subrange;
use vstd::utf8::{decode_utf8, valid_utf8};

verus! {

/// `char::from_u32`: the character of that code point, which is one exactly
/// outside the surrogates and up to the last code point.
#[verifier::external_body]
fn char_from_u32(u: u32) -> (r: Option<char>)
    ensures
        match r {
            Some(c) => is_code_point(u) && c as u32 == u,
            None => !is_code_point(u),
        },
{
    char::from_u32(u)
}

/// `std::str::from_utf8`: the text that the bytes encode, where they are valid.
#[verifier::external_body]
fn text_of(bytes: &[u8]) -> (r: Option<&str>)
    ensures
        match r {
            Some(s) => valid_utf8(bytes@) && s@ == decode_utf8(bytes@),
            None => !valid_utf8(bytes@),
        },
{
    std::str::from_utf8(bytes).ok()
}

/// Whether a character has that code point.
pub open spec fn is_code_point(u: u32) -> bool {
    u < 0xD800 || 0xE000 <= u <= 0x10FFFF
}

/// The character of a code point; the one with code point zero where there is
/// none.
pub open spec fn char_or_nul(u: u32, c: char) -> bool {
    if is_code_point(u) {
        c as u32 == u
    } else {
        c == '\0'
    }
}

/// The character of a code point; the one with code point zero where there is
/// none.
pub fn char_from_u32_or_nul(u: u32) -> (c: char)
    ensures
        char_or_nul(u, c),
{
    match char_from_u32(u) {
        Some(c) => c,
        None => '\0',
    }
}

/// The text that the pool holds there; empty where the bytes are no text.
pub open spec fn pool_text(pool: Seq<u8>, offset: u32, len: u32) -> Seq<char> {
    let bytes = pool.subrange(offset as int, offset + len);
    if valid_utf8(bytes) {
        decode_utf8(bytes)
    } else {
        seq![]
    }
}

/// Whether the value is what the constant stands for.
pub open spec fn stands_for(c: ConstValue, pool: Seq<u8>, v: Value) -> bool {
    match c {
        ConstValue::I8(x) => v == Value::I8(x),
        ConstValue::I16(x) => v == Value::I16(x),
        ConstValue::I32(x) => v == Value::I32(x),
        ConstValue::I64(x) => v == Value::I64(x),
        ConstValue::I128(x) => v == Value::I128(x),
        ConstValue::U8(x) => v == Value::U8(x),
        ConstValue::U16(x) => v == Value::U16(x),
        ConstValue::U32(x) => v == Value::U32(x),
        ConstValue::U64(x) => v == Value::U64(x),
        ConstValue::U128(x) => v == Value::U128(x),
        ConstValue::Isize(x) => v == Value::Isize(x),
        ConstValue::Usize(x) => v == Value::Usize(x),
        ConstValue::F16(x) => v == Value::F16(x),
        ConstValue::F32(x) => v == Value::F32(x),
        ConstValue::F64(x) => v == Value::F64(x),
        ConstValue::F128(x) => v == Value::F128(x),
        ConstValue::Bool(x) => v == Value::Bool(x),
        ConstValue::Char(u) => v matches Value::Char(x) && char_or_nul(u, x),
        ConstValue::Str { offset, len } => v matches Value::Str(s) && s@ == pool_text(pool, offset, len),
        ConstValue::Null => v == Value::Null,
        ConstValue::Void => v == Value::Void,
    }
}

/// The constant that stands for a value: every scalar has one, a text or an
/// object has none.
pub open spec fn const_for(v: Value) -> Option<ConstValue> {
    match v {
        Value::I8(x) => Some(ConstValue::I8(x)),
        Value::I16(x) => Some(ConstValue::I16(x)),
        Value::I32(x) => Some(ConstValue::I32(x)),
        Value::I64(x) => Some(ConstValue::I64(x)),
        Value::I128(x) => Some(ConstValue::I128(x)),
        Value::U8(x) => Some(ConstValue::U8(x)),
        Value::U16(x) => Some(ConstValue::U16(x)),
        Value::U32(x) => Some(ConstValue::U32(x)),
        Value::U64(x) => Some(ConstValue::U64(x)),
        Value::U128(x) => Some(ConstValue::U128(x)),
        Value::Isize(x) => Some(ConstValue::Isize(x)),
        Value::Usize(x) => Some(ConstValue::Usize(x)),
        Value::F16(x) => Some(ConstValue::F16(x)),
        Value::F32(x) => Some(ConstValue::F32(x)),
        Value::F64(x) => Some(ConstValue::F64(x)),
        Value::F128(x) => Some(ConstValue::F128(x)),
        Value::Bool(x) => Some(ConstValue::Bool(x)),
        Value::Char(x) => Some(ConstValue::Char(x as u32)),
        Value::Null => Some(ConstValue::Null),
        Value::Void => Some(ConstValue::Void),
        Value::Str(_) | Value::Object(_) => None,
    }
}

impl ConstValue {
    /// The value that the constant stands for; `pool` holds the texts.
    pub fn to_value(&self, pool: &[u8]) -> (v: Value)
        requires
            *self matches ConstValue::Str { offset, len } ==> offset + len <= pool@.len(),
        ensures
            stands_for(*self, pool@, v),
    {
        match self {
            ConstValue::I8(x) => Value::I8(*x),
            ConstValue::I16(x) => Value::I16(*x),
            ConstValue::I32(x) => Value::I32(*x),
            ConstValue::I64(x) => Value::I64(*x),
            ConstValue::I128(x) => Value::I128(*x),
            ConstValue::U8(x) => Value::U8(*x),
            ConstValue::U16(x) => Value::U16(*x),
            ConstValue::U32(x) => Value::U32(*x),
            ConstValue::U64(x) => Value::U64(*x),
            ConstValue::U128(x) => Value::U128(*x),
            ConstValue::Isize(x) => Value::Isize(*x),
            ConstValue::Usize(x) => Value::Usize(*x),
            ConstValue::F16(x) => Value::F16(*x),
            ConstValue::F32(x) => Value::F32(*x),
            ConstValue::F64(x) => Value::F64(*x),
            ConstValue::F128(x) => Value::F128(*x),
            ConstValue::Bool(x) => Value::Bool(*x),
            ConstValue::Char(u) => Value::Char(char_from_u32_or_nul(*u)),
            ConstValue::Str { offset, len } => {
                let start = *offset as usize;
                let size = pool.len();
                assert(*offset + *len <= size);
                let bytes = slice_subrange(pool, start, start + *len as usize);
                match text_of(bytes) {
                    Some(s) => Value::Str(s.to_string()),
                    None => Value::Str(String::new()),
                }
            },
            ConstValue::Null => Value::Null,
            ConstValue::Void => Value::Void,
        }
    }

    /// The constant that stands for a value, where one does.
    pub fn from_value(v: &Value) -> (r: Option<ConstValue>)
        ensures
            r == const_for(*v),
    {
        match v {
            Value::I8(x) => Some(ConstValue::I8(*x)),
            Value::I16(x) => Some(ConstValue::I16(*x)),
            Value::I32(x) => Some(ConstValue::I32(*x)),
            Value::I64(x) => Some(ConstValue::I64(*x)),
            Value::I128(x) => Some(ConstValue::I128(*x)),
            Value::U8(x) => Some(ConstValue::U8(*x)),
            Value::U16(x) => Some(ConstValue::U16(*x)),
            Value::U32(x) => Some(ConstValue::U32(*x)),
            Value::U64(x) => Some(ConstValue::U64(*x)),
            Value::U128(x) => Some(ConstValue::U128(*x)),
            Value::Isize(x) => Some(ConstValue::Isize(*x)),
            Value::Usize(x) => Some(ConstValue::Usize(*x)),
            Value::F16(x) => Some(ConstValue::F16(*x)),
            Value::F32(x) => Some(ConstValue::F32(*x)),
            Value::F64(x) => Some(ConstValue::F64(*x)),
            Value::F128(x) => Some(ConstValue::F128(*x)),
            Value::Bool(x) => Some(ConstValue::Bool(*x)),
            Value::Char(x) => Some(ConstValue::Char(*x as u32)),
            Value::Null => Some(ConstValue::Null),
            Value::Void => Some(ConstValue::Void),
            Value::Str(_) | Value::Object(_) => None,
        }
    }
}

/// The constant of a value stands for that value and no other.
pub proof fn law_constant_gives_the_value_back(v: Value, w: Value, pool: Seq<u8>)
    requires
        const_for(v) is Some,
    ensures
        stands_for(const_for(v)->0, pool, w) <==> v == w,
{
    match (v, w) {
        (Value::Char(x), Value::Char(y)) => {
            assert(is_code_point(x as u32));
        },
        (Value::Char(x), _) => {
            assert(is_code_point(x as u32));
        },
        _ => {},
    }
}

/// A constant other than a text is the one of the value that it stands for, if
/// it is a character only where that has its code point.
pub proof fn law_value_gives_the_constant_back(c: ConstValue, v: Value, pool: Seq<u8>)
    requires
        stands_for(c, pool, v),
        !(c is Str),
        c matches ConstValue::Char(u) ==> is_code_point(u),
    ensures
        const_for(v) == Some(c),
{
}

// ---- scalar types ----------------------------------------------------------

/// The place of an integer type among them: each has twelve operations.
pub open spec fn int_place(tag: ValueTag) -> Option<u32> {
    match tag {
        ValueTag::I8 => Some(0u32),
        ValueTag::I16 => Some(1u32),
        ValueTag::I32 => Some(2u32),
        ValueTag::I64 => Some(3u32),
        ValueTag::I128 => Some(4u32),
        ValueTag::U8 => Some(5u32),
        ValueTag::U16 => Some(6u32),
        ValueTag::U32 => Some(7u32),
        ValueTag::U64 => Some(8u32),
        ValueTag::U128 => Some(9u32),
        ValueTag::Isize => Some(10u32),
        ValueTag::Usize => Some(11u32),
        _ => None,
    }
}

/// The place of a floating-point type among them: each has six operations.
pub open spec fn float_place(tag: ValueTag) -> Option<u32> {
    match tag {
        ValueTag::F16 => Some(0u32),
        ValueTag::F32 => Some(1u32),
        ValueTag::F64 => Some(2u32),
        ValueTag::F128 => Some(3u32),
        _ => None,
    }
}

/// Where the operations of a scalar type start among the compute functions, and
/// what family it belongs to.
pub open spec fn meta_of_scalar(tag: ValueTag) -> Option<ScalarMeta> {
    let family = tag.spec_family();
    match int_place(tag) {
        Some(k) => Some(ScalarMeta { arith_base: (92 + 12 * k) as u32, family, is_float: false }),
        None => match float_place(tag) {
            Some(k) => Some(ScalarMeta { arith_base: (236 + 6 * k) as u32, family, is_float: true }),
            None => if tag == ValueTag::Bool || tag == ValueTag::Char {
                Some(ScalarMeta { arith_base: 0, family, is_float: false })
            } else {
                None
            },
        },
    }
}

/// Where the operations of a scalar type start, and its family.
pub fn scalar_meta(tag: ValueTag) -> (r: Option<ScalarMeta>)
    ensures
        r == meta_of_scalar(tag),
{
    let family = tag.family();
    match tag {
        ValueTag::I8 => Some(ScalarMeta { arith_base: 92, family, is_float: false }),
        ValueTag::I16 => Some(ScalarMeta { arith_base: 104, family, is_float: false }),
        ValueTag::I32 => Some(ScalarMeta { arith_base: 116, family, is_float: false }),
        ValueTag::I64 => Some(ScalarMeta { arith_base: 128, family, is_float: false }),
        ValueTag::I128 => Some(ScalarMeta { arith_base: 140, family, is_float: false }),
        ValueTag::U8 => Some(ScalarMeta { arith_base: 152, family, is_float: false }),
        ValueTag::U16 => Some(ScalarMeta { arith_base: 164, family, is_float: false }),
        ValueTag::U32 => Some(ScalarMeta { arith_base: 176, family, is_float: false }),
        ValueTag::U64 => Some(ScalarMeta { arith_base: 188, family, is_float: false }),
        ValueTag::U128 => Some(ScalarMeta { arith_base: 200, family, is_float: false }),
        ValueTag::Isize => Some(ScalarMeta { arith_base: 212, family, is_float: false }),
        ValueTag::Usize => Some(ScalarMeta { arith_base: 224, family, is_float: false }),
        ValueTag::F16 => Some(ScalarMeta { arith_base: 236, family, is_float: true }),
        ValueTag::F32 => Some(ScalarMeta { arith_base: 242, family, is_float: true }),
        ValueTag::F64 => Some(ScalarMeta { arith_base: 248, family, is_float: true }),
        ValueTag::F128 => Some(ScalarMeta { arith_base: 254, family, is_float: true }),
        ValueTag::Bool | ValueTag::Char => Some(ScalarMeta { arith_base: 0, family, is_float: false }),
        ValueTag::Null | ValueTag::Void | ValueTag::Ref => None,
    }
}

/// The operations of two number types do not overlap: where the types differ,
/// those of one end before those of the other start.
pub proof fn law_operations_do_not_overlap(a: ValueTag, b: ValueTag)
    requires
        a != b,
        int_place(a) is Some || float_place(a) is Some,
        int_place(b) is Some || float_place(b) is Some,
        meta_of_scalar(a)->0.arith_base <= meta_of_scalar(b)->0.arith_base,
    ensures
        meta_of_scalar(a)->0.arith_base + (if meta_of_scalar(a)->0.is_float {
            6int
        } else {
            12int
        }) <= meta_of_scalar(b)->0.arith_base,
{
}

/// The operations of a number type start with its addition.
pub proof fn law_operations_start_with_the_addition()
    ensures
        meta_of_scalar(ValueTag::I8)->0.arith_base == crate::ir::compute_fns::CF_ADD_I8,
        meta_of_scalar(ValueTag::I16)->0.arith_base == crate::ir::compute_fns::CF_ADD_I16,
        meta_of_scalar(ValueTag::I32)->0.arith_base == crate::ir::compute_fns::CF_ADD_I32_FULL,
        meta_of_scalar(ValueTag::I64)->0.arith_base == crate::ir::compute_fns::CF_ADD_I64_FULL,
        meta_of_scalar(ValueTag::I128)->0.arith_base == crate::ir::compute_fns::CF_ADD_I128_FULL,
        meta_of_scalar(ValueTag::U8)->0.arith_base == crate::ir::compute_fns::CF_ADD_U8,
        meta_of_scalar(ValueTag::U16)->0.arith_base == crate::ir::compute_fns::CF_ADD_U16,
        meta_of_scalar(ValueTag::U32)->0.arith_base == crate::ir::compute_fns::CF_ADD_U32,
        meta_of_scalar(ValueTag::U64)->0.arith_base == crate::ir::compute_fns::CF_ADD_U64,
        meta_of_scalar(ValueTag::U128)->0.arith_base == crate::ir::compute_fns::CF_ADD_U128,
        meta_of_scalar(ValueTag::Isize)->0.arith_base == crate::ir::compute_fns::CF_ADD_ISIZE,
        meta_of_scalar(ValueTag::Usize)->0.arith_base == crate::ir::compute_fns::CF_ADD_USIZE,
        meta_of_scalar(ValueTag::F16)->0.arith_base == crate::ir::compute_fns::CF_ADD_F16,
        meta_of_scalar(ValueTag::F32)->0.arith_base == crate::ir::compute_fns::CF_ADD_F32,
        meta_of_scalar(ValueTag::F64)->0.arith_base == crate::ir::compute_fns::CF_ADD_F64_FULL,
        meta_of_scalar(ValueTag::F128)->0.arith_base == crate::ir::compute_fns::CF_ADD_F128,
{
}

/// Numbers, truth values and characters are the scalars; only floating-point
/// types are marked as such.
pub proof fn law_scalar_types(tag: ValueTag)
    ensures
        meta_of_scalar(tag) is None <==> tag == ValueTag::Null || tag == ValueTag::Void || tag == ValueTag::Ref,
        meta_of_scalar(tag) matches Some(m) ==> (m.is_float <==> tag == ValueTag::F16 || tag == ValueTag::F32 || tag
            == ValueTag::F64 || tag == ValueTag::F128),
{
}

} // verus!
