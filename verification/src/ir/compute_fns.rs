//! Compute-function ids and their effect classification.
//!
//! A node carries the id of the function that evaluates it. `effect_class` is
//! the one place that says what a pass may do with a node of a given id.

use vstd::prelude::*;

use crate::fx::IdSet;
use crate::ir::types::{ComputeFnId, EffectClass, NodeKind};

verus! {

pub const CF_NOOP: u32 = 0;
pub const CF_ADD_I32: u32 = 1;
pub const CF_ADD_F64: u32 = 2;
pub const CF_MUL_I32: u32 = 3;
pub const CF_LE_I32: u32 = 4;
pub const CF_SUB_I32: u32 = 5;
pub const CF_DIV_I32: u32 = 6;
pub const CF_MOD_I32: u32 = 7;
pub const CF_EQ_I32: u32 = 8;
pub const CF_NE_I32: u32 = 9;
pub const CF_LT_I32: u32 = 10;
pub const CF_GT_I32: u32 = 11;
pub const CF_GE_I32: u32 = 12;
pub const CF_SUB_F64: u32 = 13;
pub const CF_MUL_F64: u32 = 14;
pub const CF_DIV_F64: u32 = 15;
pub const CF_EQ_F64: u32 = 16;
pub const CF_NE_F64: u32 = 17;
pub const CF_LT_F64: u32 = 18;
pub const CF_GT_F64: u32 = 19;
pub const CF_LE_F64: u32 = 20;
pub const CF_GE_F64: u32 = 21;
pub const CF_AND_BOOL: u32 = 22;
pub const CF_OR_BOOL: u32 = 23;
pub const CF_NOT_BOOL: u32 = 24;
pub const CF_NEG_I32: u32 = 25;
pub const CF_NEG_F64: u32 = 26;
pub const CF_EQ_BOOL: u32 = 27;
pub const CF_THROW_WRAP_ERR: u32 = 28;
pub const CF_RECORD_CONSTRUCT: u32 = 29;
pub const CF_RECORD_FIELD_GET: u32 = 30;
pub const CF_ARRAY_CONSTRUCT: u32 = 31;
pub const CF_ARRAY_INDEX: u32 = 32;
pub const CF_RECORD_FIELD_SET: u32 = 33;
pub const CF_IS_NULL: u32 = 34;
pub const CF_ARRAY_LEN: u32 = 35;
pub const CF_CALL_LAUNCH: u32 = 36;
pub const CF_GATE_LAUNCH: u32 = 37;
pub const CF_AWAIT: u32 = 38;
pub const CF_ASYNC_CALL_LAUNCH: u32 = 39;
pub const CF_CLOSURE_CONSTRUCT: u32 = 40;
pub const CF_CLOSURE_CALL: u32 = 41;
pub const CF_CANCEL_ASYNC_HANDLE: u32 = 42;
pub const CF_SELECT_GATE: u32 = 43;
pub const CF_THROW_OK: u32 = 44;
pub const CF_THROW_ERR: u32 = 45;
pub const CF_FFI_CALL: u32 = 46;
pub const CF_PROPAGATE: u32 = 47;
pub const CF_SEQ: u32 = 48;
pub const CF_WRITEBACK: u32 = 49;
pub const CF_ADD_I64: u32 = 50;
pub const CF_SUB_I64: u32 = 51;
pub const CF_MUL_I64: u32 = 52;
pub const CF_DIV_I64: u32 = 53;
pub const CF_MOD_I64: u32 = 54;
pub const CF_EQ_I64: u32 = 55;
pub const CF_NE_I64: u32 = 56;
pub const CF_LT_I64: u32 = 57;
pub const CF_GT_I64: u32 = 58;
pub const CF_LE_I64: u32 = 59;
pub const CF_GE_I64: u32 = 60;
pub const CF_NEG_I64: u32 = 61;
pub const CF_BITNOT_I32: u32 = 62;
pub const CF_BITNOT_I64: u32 = 63;
pub const CF_ADD_I128: u32 = 64;
pub const CF_SUB_I128: u32 = 65;
pub const CF_MUL_I128: u32 = 66;
pub const CF_DIV_I128: u32 = 67;
pub const CF_MOD_I128: u32 = 68;
pub const CF_EQ_I128: u32 = 69;
pub const CF_NE_I128: u32 = 70;
pub const CF_LT_I128: u32 = 71;
pub const CF_GT_I128: u32 = 72;
pub const CF_LE_I128: u32 = 73;
pub const CF_GE_I128: u32 = 74;
pub const CF_NEG_I128: u32 = 75;
pub const CF_BITNOT_I128: u32 = 76;
pub const CF_BITAND_I32: u32 = 77;
pub const CF_BITOR_I32: u32 = 78;
pub const CF_BITXOR_I32: u32 = 79;
pub const CF_BITAND_I64: u32 = 80;
pub const CF_BITOR_I64: u32 = 81;
pub const CF_BITXOR_I64: u32 = 82;
pub const CF_BITAND_I128: u32 = 83;
pub const CF_BITOR_I128: u32 = 84;
pub const CF_BITXOR_I128: u32 = 85;
pub const CF_SHL_I32: u32 = 86;
pub const CF_SHR_I32: u32 = 87;
pub const CF_SHL_I64: u32 = 88;
pub const CF_SHR_I64: u32 = 89;
pub const CF_SHL_I128: u32 = 90;
pub const CF_SHR_I128: u32 = 91;
pub const CF_ADD_I8: u32 = 92;
pub const CF_SUB_I8: u32 = 93;
pub const CF_MUL_I8: u32 = 94;
pub const CF_DIV_I8: u32 = 95;
pub const CF_MOD_I8: u32 = 96;
pub const CF_BITAND_I8: u32 = 97;
pub const CF_BITOR_I8: u32 = 98;
pub const CF_BITXOR_I8: u32 = 99;
pub const CF_SHL_I8: u32 = 100;
pub const CF_SHR_I8: u32 = 101;
pub const CF_NEG_I8: u32 = 102;
pub const CF_BITNOT_I8: u32 = 103;
pub const CF_ADD_I16: u32 = 104;
pub const CF_SUB_I16: u32 = 105;
pub const CF_MUL_I16: u32 = 106;
pub const CF_DIV_I16: u32 = 107;
pub const CF_MOD_I16: u32 = 108;
pub const CF_BITAND_I16: u32 = 109;
pub const CF_BITOR_I16: u32 = 110;
pub const CF_BITXOR_I16: u32 = 111;
pub const CF_SHL_I16: u32 = 112;
pub const CF_SHR_I16: u32 = 113;
pub const CF_NEG_I16: u32 = 114;
pub const CF_BITNOT_I16: u32 = 115;
pub const CF_ADD_I32_FULL: u32 = 116;
pub const CF_SUB_I32_FULL: u32 = 117;
pub const CF_MUL_I32_FULL: u32 = 118;
pub const CF_DIV_I32_FULL: u32 = 119;
pub const CF_MOD_I32_FULL: u32 = 120;
pub const CF_BITAND_I32_FULL: u32 = 121;
pub const CF_BITOR_I32_FULL: u32 = 122;
pub const CF_BITXOR_I32_FULL: u32 = 123;
pub const CF_SHL_I32_FULL: u32 = 124;
pub const CF_SHR_I32_FULL: u32 = 125;
pub const CF_NEG_I32_FULL: u32 = 126;
pub const CF_BITNOT_I32_FULL: u32 = 127;
pub const CF_ADD_I64_FULL: u32 = 128;
pub const CF_SUB_I64_FULL: u32 = 129;
pub const CF_MUL_I64_FULL: u32 = 130;
pub const CF_DIV_I64_FULL: u32 = 131;
pub const CF_MOD_I64_FULL: u32 = 132;
pub const CF_BITAND_I64_FULL: u32 = 133;
pub const CF_BITOR_I64_FULL: u32 = 134;
pub const CF_BITXOR_I64_FULL: u32 = 135;
pub const CF_SHL_I64_FULL: u32 = 136;
pub const CF_SHR_I64_FULL: u32 = 137;
pub const CF_NEG_I64_FULL: u32 = 138;
pub const CF_BITNOT_I64_FULL: u32 = 139;
pub const CF_ADD_I128_FULL: u32 = 140;
pub const CF_SUB_I128_FULL: u32 = 141;
pub const CF_MUL_I128_FULL: u32 = 142;
pub const CF_DIV_I128_FULL: u32 = 143;
pub const CF_MOD_I128_FULL: u32 = 144;
pub const CF_BITAND_I128_FULL: u32 = 145;
pub const CF_BITOR_I128_FULL: u32 = 146;
pub const CF_BITXOR_I128_FULL: u32 = 147;
pub const CF_SHL_I128_FULL: u32 = 148;
pub const CF_SHR_I128_FULL: u32 = 149;
pub const CF_NEG_I128_FULL: u32 = 150;
pub const CF_BITNOT_I128_FULL: u32 = 151;
pub const CF_ADD_U8: u32 = 152;
pub const CF_SUB_U8: u32 = 153;
pub const CF_MUL_U8: u32 = 154;
pub const CF_DIV_U8: u32 = 155;
pub const CF_MOD_U8: u32 = 156;
pub const CF_BITAND_U8: u32 = 157;
pub const CF_BITOR_U8: u32 = 158;
pub const CF_BITXOR_U8: u32 = 159;
pub const CF_SHL_U8: u32 = 160;
pub const CF_SHR_U8: u32 = 161;
pub const CF_NEG_U8: u32 = 162;
pub const CF_BITNOT_U8: u32 = 163;
pub const CF_ADD_U16: u32 = 164;
pub const CF_SUB_U16: u32 = 165;
pub const CF_MUL_U16: u32 = 166;
pub const CF_DIV_U16: u32 = 167;
pub const CF_MOD_U16: u32 = 168;
pub const CF_BITAND_U16: u32 = 169;
pub const CF_BITOR_U16: u32 = 170;
pub const CF_BITXOR_U16: u32 = 171;
pub const CF_SHL_U16: u32 = 172;
pub const CF_SHR_U16: u32 = 173;
pub const CF_NEG_U16: u32 = 174;
pub const CF_BITNOT_U16: u32 = 175;
pub const CF_ADD_U32: u32 = 176;
pub const CF_SUB_U32: u32 = 177;
pub const CF_MUL_U32: u32 = 178;
pub const CF_DIV_U32: u32 = 179;
pub const CF_MOD_U32: u32 = 180;
pub const CF_BITAND_U32: u32 = 181;
pub const CF_BITOR_U32: u32 = 182;
pub const CF_BITXOR_U32: u32 = 183;
pub const CF_SHL_U32: u32 = 184;
pub const CF_SHR_U32: u32 = 185;
pub const CF_NEG_U32: u32 = 186;
pub const CF_BITNOT_U32: u32 = 187;
pub const CF_ADD_U64: u32 = 188;
pub const CF_SUB_U64: u32 = 189;
pub const CF_MUL_U64: u32 = 190;
pub const CF_DIV_U64: u32 = 191;
pub const CF_MOD_U64: u32 = 192;
pub const CF_BITAND_U64: u32 = 193;
pub const CF_BITOR_U64: u32 = 194;
pub const CF_BITXOR_U64: u32 = 195;
pub const CF_SHL_U64: u32 = 196;
pub const CF_SHR_U64: u32 = 197;
pub const CF_NEG_U64: u32 = 198;
pub const CF_BITNOT_U64: u32 = 199;
pub const CF_ADD_U128: u32 = 200;
pub const CF_SUB_U128: u32 = 201;
pub const CF_MUL_U128: u32 = 202;
pub const CF_DIV_U128: u32 = 203;
pub const CF_MOD_U128: u32 = 204;
pub const CF_BITAND_U128: u32 = 205;
pub const CF_BITOR_U128: u32 = 206;
pub const CF_BITXOR_U128: u32 = 207;
pub const CF_SHL_U128: u32 = 208;
pub const CF_SHR_U128: u32 = 209;
pub const CF_NEG_U128: u32 = 210;
pub const CF_BITNOT_U128: u32 = 211;
pub const CF_ADD_ISIZE: u32 = 212;
pub const CF_SUB_ISIZE: u32 = 213;
pub const CF_MUL_ISIZE: u32 = 214;
pub const CF_DIV_ISIZE: u32 = 215;
pub const CF_MOD_ISIZE: u32 = 216;
pub const CF_BITAND_ISIZE: u32 = 217;
pub const CF_BITOR_ISIZE: u32 = 218;
pub const CF_BITXOR_ISIZE: u32 = 219;
pub const CF_SHL_ISIZE: u32 = 220;
pub const CF_SHR_ISIZE: u32 = 221;
pub const CF_NEG_ISIZE: u32 = 222;
pub const CF_BITNOT_ISIZE: u32 = 223;
pub const CF_ADD_USIZE: u32 = 224;
pub const CF_SUB_USIZE: u32 = 225;
pub const CF_MUL_USIZE: u32 = 226;
pub const CF_DIV_USIZE: u32 = 227;
pub const CF_MOD_USIZE: u32 = 228;
pub const CF_BITAND_USIZE: u32 = 229;
pub const CF_BITOR_USIZE: u32 = 230;
pub const CF_BITXOR_USIZE: u32 = 231;
pub const CF_SHL_USIZE: u32 = 232;
pub const CF_SHR_USIZE: u32 = 233;
pub const CF_NEG_USIZE: u32 = 234;
pub const CF_BITNOT_USIZE: u32 = 235;
pub const CF_ADD_F16: u32 = 236;
pub const CF_SUB_F16: u32 = 237;
pub const CF_MUL_F16: u32 = 238;
pub const CF_DIV_F16: u32 = 239;
pub const CF_MOD_F16: u32 = 240;
pub const CF_NEG_F16: u32 = 241;
pub const CF_ADD_F32: u32 = 242;
pub const CF_SUB_F32: u32 = 243;
pub const CF_MUL_F32: u32 = 244;
pub const CF_DIV_F32: u32 = 245;
pub const CF_MOD_F32: u32 = 246;
pub const CF_NEG_F32: u32 = 247;
pub const CF_ADD_F64_FULL: u32 = 248;
pub const CF_SUB_F64_FULL: u32 = 249;
pub const CF_MUL_F64_FULL: u32 = 250;
pub const CF_DIV_F64_FULL: u32 = 251;
pub const CF_MOD_F64_FULL: u32 = 252;
pub const CF_NEG_F64_FULL: u32 = 253;
pub const CF_ADD_F128: u32 = 254;
pub const CF_SUB_F128: u32 = 255;
pub const CF_MUL_F128: u32 = 256;
pub const CF_DIV_F128: u32 = 257;
pub const CF_MOD_F128: u32 = 258;
pub const CF_NEG_F128: u32 = 259;
pub const CF_REF_EQ: u32 = 260;
pub const CF_REF_NEQ: u32 = 261;
pub const CF_CONCAT_LIST: u32 = 262;
pub const CF_RANGE: u32 = 263;
pub const CF_RANGE_INCLUSIVE: u32 = 264;
pub const CF_ELVIS: u32 = 265;
pub const CF_TRAIT_CONSTRUCT: u32 = 266;
pub const CF_LAZY_CONSTRUCT: u32 = 267;
pub const CF_SLICE: u32 = 268;
pub const CF_STR_CONCAT: u32 = 269;
pub const CF_GLOBAL_LOAD: u32 = 270;
pub const CF_GLOBAL_STORE: u32 = 271;
pub const CF_RECORD_EXTEND: u32 = 272;
pub const CF_ATOMIC_CONSTRUCT: u32 = 273;
pub const CF_PATTERN_CTOR_MATCH: u32 = 274;
pub const CF_PATTERN_ADT_FIELD_GET: u32 = 275;
pub const CF_PATTERN_STR_EQ: u32 = 276;
pub const CF_CAST_TO_STR: u32 = 277;
pub const CF_CAST_SCALAR: u32 = 278;
pub const CF_NON_NULL_ASSERT: u32 = 279;
pub const CF_REF_OF: u32 = 280;
pub const CF_DEREF_READ: u32 = 281;
pub const CF_DEREF_WRITE: u32 = 282;
pub const CF_CHANNEL_CREATE: u32 = 283;
pub const CF_CHANNEL_SEND: u32 = 284;
pub const CF_CHANNEL_CLOSE: u32 = 285;
pub const CF_PARTIAL_CONSTRUCT: u32 = 286;
pub const CF_STR_BYTES: u32 = 287;
pub const CF_RECORD_CONSTRUCT_STACK: u32 = 288;
pub const CF_ARRAY_CONSTRUCT_STACK: u32 = 289;
pub const CF_REFLECT_FORMAT: u32 = 290;
pub const CF_REFLECT_SCALAR_TO_STR: u32 = 291;
pub const CF_EQ_STR: u32 = 292;
pub const CF_NE_STR: u32 = 293;
pub const CF_LT_STR: u32 = 294;
pub const CF_GT_STR: u32 = 295;
pub const CF_LE_STR: u32 = 296;
pub const CF_GE_STR: u32 = 297;
pub const CF_EQ_OBJ: u32 = 298;
pub const CF_NE_OBJ: u32 = 299;
pub const CF_NE_BOOL: u32 = 300;
pub const CF_ARRAY_STORE: u32 = 301;
pub const CF_EQ_F128: u32 = 302;
pub const CF_NE_F128: u32 = 303;
pub const CF_LT_F128: u32 = 304;
pub const CF_GT_F128: u32 = 305;
pub const CF_LE_F128: u32 = 306;
pub const CF_GE_F128: u32 = 307;
pub const CF_MEMO_CHECK: u32 = 308;
pub const CF_MEMO_STORE: u32 = 309;
pub const CF_TAILREC_WRITEBACK: u32 = 310;
pub const CF_RETURN: u32 = 311;
pub const CF_BREAK: u32 = 312;
pub const CF_CONTINUE: u32 = 313;
pub const CF_MATCH_FALLBACK: u32 = 314;
pub const CF_ATOMIC_LOAD: u32 = 315;
pub const CF_ATOMIC_STORE: u32 = 316;
pub const CF_ATOMIC_SWAP: u32 = 317;
pub const CF_ATOMIC_COMPARE_EXCHANGE: u32 = 318;
pub const CF_STR_MULTI_CONCAT: u32 = 319;
pub const CF_STR_ARRAY_JOIN: u32 = 320;
pub const CF_ARRAY_FILL: u32 = 321;
pub const CF_DEFER_REGISTER: u32 = 322;
pub const CF_DEFER_RUN: u32 = 323;
pub const CF_BLOCK_DEFER_REGISTER: u32 = 324;
pub const CF_DYN_FFI_CALL: u32 = 325;
pub const CF_REFLECT_KIND: u32 = 326;  // v.kind()        -> u8
pub const CF_REFLECT_TYPE_NAME: u32 = 327;  // v.type_name()   -> str
pub const CF_REFLECT_KIND_STR: u32 = 328;  // v.kind_str()    -> str
pub const CF_REFLECT_SIZE: u32 = 329;  // v.size()        -> u8  (scalar byte width)
pub const CF_REFLECT_LAYOUT_SIZE: u32 = 330;  // v.size()        -> u32 (aggregate layout size)
pub const CF_REFLECT_LAYOUT_ALIGN: u32 = 331;  // v.alignment()   -> u32
pub const CF_REFLECT_FIELD_COUNT: u32 = 332;  // v.field_count() -> u16
pub const CF_REFLECT_FIELD_NAME: u32 = 333;  // v.field_name(i) -> str
pub const CF_REFLECT_FIELD_VALUE: u32 = 334;  // v.field_value(i)-> Value
pub const CF_REFLECT_ARRAY_LEN: u32 = 335;  // v.array_len()   -> usize
pub const CF_REFLECT_ADT_CTOR: u32 = 336;  // v.adt_constructor() -> str

/// Number of compute functions: ids are 0 up to this, exclusive.
pub const COMPUTE_FN_TABLE_LEN: u32 = 337;

/// The class of every id below `COMPUTE_FN_TABLE_LEN`.
pub open spec fn spec_effect_class(id: u32) -> EffectClass {
    if id == 0 || 1 <= id <= 27 || 50 <= id <= 259 || id == 34 || id == 260 || id == 261
        || id == 265 || id == 274 || id == 276 || id == 278 || id == 279 || id == 287
        || 292 <= id <= 300 || 302 <= id <= 307 {
        EffectClass::Pure
    } else if id == 30 || id == 32 || id == 35 || id == 275 || id == 270 || id == 281 || id == 308
        || id == 315 || id == 334 || id == 335 {
        EffectClass::ReadMutable
    } else if id == 33 || id == 282 || id == 301 || id == 309 || id == 316 || id == 317 || id
        == 318 {
        EffectClass::WriteMutable
    } else if id == 49 || id == 271 || id == 310 {
        EffectClass::WriteLocal
    } else if id == 28 || id == 37 || id == 47 || 311 <= id <= 314 {
        EffectClass::ControlFlow
    } else if id == 48 {
        EffectClass::Sequence
    } else if id == 38 || id == 39 || id == 42 || id == 43 || id == 284 || id == 285 {
        EffectClass::Async
    } else if id == 36 || id == 41 {
        EffectClass::Call
    } else if id == 46 || id == 325 {
        EffectClass::Ffi
    } else if 322 <= id <= 324 {
        EffectClass::Runtime
    } else if 326 <= id <= 333 || id == 336 {
        EffectClass::PureMeta
    } else {
        EffectClass::Alloc
    }
}

/// The ids whose nodes may be merged, hoisted and deleted: everything of class
/// `Pure` but the parameter placeholder, and the four aliased heap reads.
pub open spec fn is_pure_id(id: u32) -> bool {
    id < COMPUTE_FN_TABLE_LEN && ((id != CF_NOOP && spec_effect_class(id) == EffectClass::Pure)
        || is_aliasing_read_id(id))
}

pub open spec fn is_aliasing_read_id(id: u32) -> bool {
    id == CF_RECORD_FIELD_GET || id == CF_ARRAY_INDEX || id == CF_ARRAY_LEN || id
        == CF_PATTERN_ADT_FIELD_GET
}

/// The set of all pure ids.
pub open spec fn pure_ids() -> Set<u32> {
    Set::new(|id: u32| is_pure_id(id))
}

/// Classifies a compute function. The caller names an id of the table.
pub fn effect_class(cf: ComputeFnId) -> (r: EffectClass)
    requires
        cf.0 < COMPUTE_FN_TABLE_LEN,
    ensures
        r == spec_effect_class(cf.0),
{
    match cf.0 {
        1..=27 | 50..=91 | 92..=259 => EffectClass::Pure,
        34 | 260 | 261 | 265 | 274 | 276 | 278 | 279 | 287 => EffectClass::Pure,
        292..=300 | 302..=307 => EffectClass::Pure,
        30 | 32 | 35 | 275 => EffectClass::ReadMutable,
        270 | 281 | 308 | 315 | 334 | 335 => EffectClass::ReadMutable,
        33 | 282 | 301 | 309 | 316 | 317 | 318 => EffectClass::WriteMutable,
        49 | 271 | 310 => EffectClass::WriteLocal,
        28 | 37 | 47 | 311 | 312 | 313 | 314 => EffectClass::ControlFlow,
        48 => EffectClass::Sequence,
        38 | 39 | 42 | 43 | 284 | 285 => EffectClass::Async,
        36 | 41 => EffectClass::Call,
        46 | 325 => EffectClass::Ffi,
        322 | 323 | 324 => EffectClass::Runtime,
        326..=333 | 336 => EffectClass::PureMeta,
        0 => EffectClass::Pure,
        _ => EffectClass::Alloc,
    }
}

/// The four aliased heap reads that belong to the pure set.
pub fn aliasing_read_cfs() -> (r: [ComputeFnId; 4])
    ensures
        r@ == seq![
            ComputeFnId(CF_RECORD_FIELD_GET),
            ComputeFnId(CF_ARRAY_INDEX),
            ComputeFnId(CF_ARRAY_LEN),
            ComputeFnId(CF_PATTERN_ADT_FIELD_GET),
        ],
{
    let r = [
        ComputeFnId(CF_RECORD_FIELD_GET),
        ComputeFnId(CF_ARRAY_INDEX),
        ComputeFnId(CF_ARRAY_LEN),
        ComputeFnId(CF_PATTERN_ADT_FIELD_GET),
    ];
    assert(r@ =~= seq![
        ComputeFnId(CF_RECORD_FIELD_GET),
        ComputeFnId(CF_ARRAY_INDEX),
        ComputeFnId(CF_ARRAY_LEN),
        ComputeFnId(CF_PATTERN_ADT_FIELD_GET),
    ]);
    r
}

pub open spec fn is_versioned_read_id(id: u32) -> bool {
    is_aliasing_read_id(id) || id == CF_DEREF_READ || id == CF_ATOMIC_LOAD || id
        == CF_REFLECT_FIELD_VALUE || id == CF_REFLECT_ARRAY_LEN
}

pub open spec fn is_versioned_write_id(id: u32) -> bool {
    id == CF_RECORD_FIELD_SET || id == CF_ARRAY_STORE || id == CF_DEREF_WRITE || id
        == CF_ATOMIC_STORE || id == CF_ATOMIC_SWAP || id == CF_ATOMIC_COMPARE_EXCHANGE
}

pub open spec fn is_control_flow_id(id: u32) -> bool {
    id == CF_RETURN || id == CF_BREAK || id == CF_CONTINUE || id == CF_THROW_WRAP_ERR
}

pub open spec fn launches(kind: NodeKind) -> bool {
    kind is Gate || kind is Call || kind is Await || kind is EventSource
}

/// Heap reads that participate in storage versioning; the storage root is
/// always the first input.
pub fn is_versioned_read_cf(cf: ComputeFnId) -> (r: bool)
    ensures
        r == is_versioned_read_id(cf.0),
{
    cf.0 == CF_RECORD_FIELD_GET || cf.0 == CF_ARRAY_INDEX || cf.0 == CF_ARRAY_LEN || cf.0
        == CF_PATTERN_ADT_FIELD_GET || cf.0 == CF_DEREF_READ || cf.0 == CF_ATOMIC_LOAD || cf.0
        == CF_REFLECT_FIELD_VALUE || cf.0 == CF_REFLECT_ARRAY_LEN
}

/// In-place heap writes that participate in storage versioning; the write
/// node becomes the root's new version.
pub fn is_versioned_write_cf(cf: ComputeFnId) -> (r: bool)
    ensures
        r == is_versioned_write_id(cf.0),
{
    cf.0 == CF_RECORD_FIELD_SET || cf.0 == CF_ARRAY_STORE || cf.0 == CF_DEREF_WRITE || cf.0
        == CF_ATOMIC_STORE || cf.0 == CF_ATOMIC_SWAP || cf.0 == CF_ATOMIC_COMPARE_EXCHANGE
}

/// Whether a node of this id produces a non-local exit signal.
pub fn is_control_flow_compute_fn(cf: ComputeFnId) -> (r: bool)
    ensures
        r == is_control_flow_id(cf.0),
{
    cf.0 == CF_RETURN || cf.0 == CF_BREAK || cf.0 == CF_CONTINUE || cf.0 == CF_THROW_WRAP_ERR
}

/// Node kinds that launch or gate runtime work: never moved, deleted or merged
/// freely, whatever their purity.
pub fn is_launch_kind(kind: NodeKind) -> (r: bool)
    ensures
        r == launches(kind),
{
    matches!(kind, NodeKind::Gate | NodeKind::Call | NodeKind::Await | NodeKind::EventSource)
}

/// The ids eligible for CSE, LICM and DCE.
pub fn pure_compute_fn_set() -> (s: IdSet)
    ensures
        s@ == pure_ids(),
{
    let mut s = IdSet::new();
    let mut id: u32 = 0;
    while id < COMPUTE_FN_TABLE_LEN
        invariant
            id <= COMPUTE_FN_TABLE_LEN,
            forall|k: u32| #[trigger]
                s@.contains(k) <==> k < id && k != CF_NOOP && spec_effect_class(k)
                    == EffectClass::Pure,
        decreases COMPUTE_FN_TABLE_LEN - id,
    {
        if id != CF_NOOP && effect_class(ComputeFnId(id)) == EffectClass::Pure {
            s.insert(id);
        }
        id = id + 1;
    }
    let reads = aliasing_read_cfs();
    s.insert(reads[0].0);
    s.insert(reads[1].0);
    s.insert(reads[2].0);
    s.insert(reads[3].0);
    assert(s@ =~= pure_ids());
    s
}

// ---- laws -------------------------------------------------------------------

/// No id is both a versioned read and a versioned write.
pub proof fn law_versioned_reads_and_writes_are_disjoint(id: u32)
    ensures
        !(is_versioned_read_id(id) && is_versioned_write_id(id)),
{
}

/// Versioned reads are classified as reads of mutable state, versioned writes
/// as in-place writes.
pub proof fn law_versioned_ids_agree_with_classes(id: u32)
    ensures
        is_versioned_read_id(id) ==> spec_effect_class(id) == EffectClass::ReadMutable,
        is_versioned_write_id(id) ==> spec_effect_class(id) == EffectClass::WriteMutable,
{
}

/// Every id that raises a control signal is of class `ControlFlow`, and no
/// such id is in the pure set.
pub proof fn law_control_flow_ids_are_never_pure(id: u32)
    requires
        is_control_flow_id(id),
    ensures
        spec_effect_class(id) == EffectClass::ControlFlow,
        !pure_ids().contains(id),
{
}

/// The pure set holds no id that writes, allocates, launches, suspends or
/// calls out: only class `Pure` and the four aliased reads.
pub proof fn law_pure_ids_have_no_effect(id: u32)
    requires
        pure_ids().contains(id),
    ensures
        spec_effect_class(id) == EffectClass::Pure || (spec_effect_class(id)
            == EffectClass::ReadMutable && is_aliasing_read_id(id)),
        id != CF_NOOP,
{
}

/// Nothing that stores, signals, launches, suspends, sends, calls out, keeps a
/// memo, defers or makes a new object may be merged, hoisted or deleted.
pub proof fn law_acting_functions_are_never_pure(id: u32)
    requires
        (id == CF_RECORD_FIELD_SET || id == CF_ARRAY_STORE || id == CF_DEREF_WRITE || id == CF_ATOMIC_STORE || id
            == CF_ATOMIC_SWAP || id == CF_ATOMIC_COMPARE_EXCHANGE || id == CF_GLOBAL_STORE || id == CF_WRITEBACK
            || id == CF_TAILREC_WRITEBACK || id == CF_MEMO_STORE) || (id == CF_RETURN || id == CF_BREAK || id
            == CF_CONTINUE || id == CF_THROW_WRAP_ERR || id == CF_PROPAGATE || id == CF_MATCH_FALLBACK || id == CF_SEQ)
            || (id == CF_CALL_LAUNCH || id == CF_GATE_LAUNCH || id == CF_ASYNC_CALL_LAUNCH || id == CF_CLOSURE_CALL
            || id == CF_AWAIT || id == CF_CANCEL_ASYNC_HANDLE || id == CF_SELECT_GATE || id == CF_CHANNEL_SEND || id
            == CF_CHANNEL_CLOSE || id == CF_CHANNEL_CREATE || id == CF_FFI_CALL || id == CF_DYN_FFI_CALL) || (id
            == CF_DEFER_REGISTER || id == CF_DEFER_RUN || id == CF_BLOCK_DEFER_REGISTER) || (id == CF_RECORD_CONSTRUCT
            || id == CF_ARRAY_CONSTRUCT || id == CF_CLOSURE_CONSTRUCT || id == CF_TRAIT_CONSTRUCT || id
            == CF_LAZY_CONSTRUCT || id == CF_RECORD_EXTEND || id == CF_ATOMIC_CONSTRUCT || id == CF_PARTIAL_CONSTRUCT
            || id == CF_REF_OF || id == CF_ARRAY_FILL || id == CF_RECORD_CONSTRUCT_STACK || id
            == CF_ARRAY_CONSTRUCT_STACK) || (id == CF_GLOBAL_LOAD || id == CF_DEREF_READ || id == CF_ATOMIC_LOAD || id
            == CF_MEMO_CHECK || id == CF_NOOP) || id >= COMPUTE_FN_TABLE_LEN,
    ensures
        !pure_ids().contains(id),
{
}

/// Arithmetic, comparisons, connectives, bit operations and shifts on numbers,
/// comparisons of strings, and the reads of fields, elements and lengths may be
/// merged, hoisted and deleted.
pub proof fn law_computing_functions_are_pure(id: u32)
    requires
        CF_ADD_I32 <= id <= CF_EQ_BOOL || CF_ADD_I64 <= id <= CF_NEG_F128 || CF_EQ_STR <= id <= CF_NE_BOOL || CF_EQ_F128
            <= id <= CF_GE_F128 || id == CF_RECORD_FIELD_GET || id == CF_ARRAY_INDEX || id == CF_ARRAY_LEN || id
            == CF_PATTERN_ADT_FIELD_GET || id == CF_IS_NULL || id == CF_REF_EQ || id == CF_REF_NEQ || id == CF_ELVIS,
    ensures
        pure_ids().contains(id),
{
}

/// What each class stands for, by name.
pub proof fn law_classes_by_name(id: u32)
    ensures
        id == CF_CALL_LAUNCH || id == CF_CLOSURE_CALL ==> spec_effect_class(id) == EffectClass::Call,
        id == CF_FFI_CALL || id == CF_DYN_FFI_CALL ==> spec_effect_class(id) == EffectClass::Ffi,
        id == CF_AWAIT || id == CF_ASYNC_CALL_LAUNCH || id == CF_CANCEL_ASYNC_HANDLE || id == CF_SELECT_GATE || id
            == CF_CHANNEL_SEND || id == CF_CHANNEL_CLOSE ==> spec_effect_class(id) == EffectClass::Async,
        id == CF_DEFER_REGISTER || id == CF_DEFER_RUN || id == CF_BLOCK_DEFER_REGISTER ==> spec_effect_class(id)
            == EffectClass::Runtime,
        id == CF_WRITEBACK || id == CF_GLOBAL_STORE || id == CF_TAILREC_WRITEBACK ==> spec_effect_class(id)
            == EffectClass::WriteLocal,
        id == CF_RECORD_FIELD_SET || id == CF_ARRAY_STORE || id == CF_DEREF_WRITE || id == CF_MEMO_STORE || id
            == CF_ATOMIC_STORE || id == CF_ATOMIC_SWAP || id == CF_ATOMIC_COMPARE_EXCHANGE ==> spec_effect_class(id)
            == EffectClass::WriteMutable,
        id == CF_RECORD_FIELD_GET || id == CF_ARRAY_INDEX || id == CF_ARRAY_LEN || id == CF_PATTERN_ADT_FIELD_GET || id
            == CF_GLOBAL_LOAD || id == CF_DEREF_READ || id == CF_MEMO_CHECK || id == CF_ATOMIC_LOAD || id
            == CF_REFLECT_FIELD_VALUE || id == CF_REFLECT_ARRAY_LEN ==> spec_effect_class(id)
            == EffectClass::ReadMutable,
        id == CF_RETURN || id == CF_BREAK || id == CF_CONTINUE || id == CF_THROW_WRAP_ERR || id == CF_GATE_LAUNCH || id
            == CF_PROPAGATE || id == CF_MATCH_FALLBACK ==> spec_effect_class(id) == EffectClass::ControlFlow,
        id == CF_SEQ ==> spec_effect_class(id) == EffectClass::Sequence,
        id == CF_REFLECT_KIND || id == CF_REFLECT_TYPE_NAME || id == CF_REFLECT_KIND_STR || id == CF_REFLECT_SIZE || id
            == CF_REFLECT_LAYOUT_SIZE || id == CF_REFLECT_LAYOUT_ALIGN || id == CF_REFLECT_FIELD_COUNT || id
            == CF_REFLECT_FIELD_NAME || id == CF_REFLECT_ADT_CTOR ==> spec_effect_class(id) == EffectClass::PureMeta,
        id == CF_RECORD_CONSTRUCT || id == CF_ARRAY_CONSTRUCT || id == CF_CLOSURE_CONSTRUCT || id == CF_TRAIT_CONSTRUCT
            || id == CF_LAZY_CONSTRUCT || id == CF_RECORD_EXTEND || id == CF_ATOMIC_CONSTRUCT || id
            == CF_PARTIAL_CONSTRUCT || id == CF_REF_OF || id == CF_ARRAY_FILL || id == CF_STR_CONCAT || id
            == CF_CONCAT_LIST || id == CF_SLICE || id == CF_CHANNEL_CREATE || id == CF_RANGE || id
            == CF_RANGE_INCLUSIVE ==> spec_effect_class(id) == EffectClass::Alloc,
        is_versioned_read_id(id) <==> id == CF_RECORD_FIELD_GET || id == CF_ARRAY_INDEX || id == CF_ARRAY_LEN || id
            == CF_PATTERN_ADT_FIELD_GET || id == CF_DEREF_READ || id == CF_ATOMIC_LOAD || id == CF_REFLECT_FIELD_VALUE
            || id == CF_REFLECT_ARRAY_LEN,
        is_versioned_write_id(id) <==> id == CF_RECORD_FIELD_SET || id == CF_ARRAY_STORE || id == CF_DEREF_WRITE || id
            == CF_ATOMIC_STORE || id == CF_ATOMIC_SWAP || id == CF_ATOMIC_COMPARE_EXCHANGE,
        is_control_flow_id(id) <==> id == CF_RETURN || id == CF_BREAK || id == CF_CONTINUE || id == CF_THROW_WRAP_ERR,
{
}

/// Gates, calls, awaits and event sources launch something; nothing else does.
pub proof fn law_launching_kinds(kind: NodeKind)
    ensures
        launches(kind) <==> kind == NodeKind::Gate || kind == NodeKind::Call || kind == NodeKind::Await || kind
            == NodeKind::EventSource,
{
}

} // verus!
