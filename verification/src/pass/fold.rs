//! Constant folding.
//!
//! `try_fold` evaluates the integer and boolean operations; operations on
//! floating-point constants have no result here. The pass rewrites a node all
//! of whose inputs are constants into a constant in place, so that its id
//! stays in its subgraph's range, and repeats until nothing more folds.

use vstd::prelude::*;

use crate::arith::{apply_int, const_of, int_of, int_result, IntBits, IntOp, IntTy};
use crate::ir::compute_fns::{
    CF_ADD_I128, CF_ADD_I128_FULL, CF_ADD_I16, CF_ADD_I32, CF_ADD_I32_FULL, CF_ADD_I64, CF_ADD_I64_FULL,
    CF_ADD_I8, CF_ADD_ISIZE, CF_ADD_U128, CF_ADD_U16, CF_ADD_U32, CF_ADD_U64, CF_ADD_U8, CF_ADD_USIZE,
    CF_AND_BOOL, CF_BITAND_I128, CF_BITAND_I128_FULL, CF_BITAND_I16, CF_BITAND_I32, CF_BITAND_I32_FULL,
    CF_BITAND_I64, CF_BITAND_I64_FULL, CF_BITAND_I8, CF_BITAND_ISIZE, CF_BITAND_U128, CF_BITAND_U16,
    CF_BITAND_U32, CF_BITAND_U64, CF_BITAND_U8, CF_BITAND_USIZE, CF_BITNOT_I128, CF_BITNOT_I128_FULL,
    CF_BITNOT_I16, CF_BITNOT_I32, CF_BITNOT_I32_FULL, CF_BITNOT_I64, CF_BITNOT_I64_FULL, CF_BITNOT_I8,
    CF_BITNOT_ISIZE, CF_BITNOT_U128, CF_BITNOT_U16, CF_BITNOT_U32, CF_BITNOT_U64, CF_BITNOT_U8,
    CF_BITNOT_USIZE, CF_BITOR_I128, CF_BITOR_I128_FULL, CF_BITOR_I16, CF_BITOR_I32, CF_BITOR_I32_FULL,
    CF_BITOR_I64, CF_BITOR_I64_FULL, CF_BITOR_I8, CF_BITOR_ISIZE, CF_BITOR_U128, CF_BITOR_U16, CF_BITOR_U32,
    CF_BITOR_U64, CF_BITOR_U8, CF_BITOR_USIZE, CF_BITXOR_I128, CF_BITXOR_I128_FULL, CF_BITXOR_I16,
    CF_BITXOR_I32, CF_BITXOR_I32_FULL, CF_BITXOR_I64, CF_BITXOR_I64_FULL, CF_BITXOR_I8, CF_BITXOR_ISIZE,
    CF_BITXOR_U128, CF_BITXOR_U16, CF_BITXOR_U32, CF_BITXOR_U64, CF_BITXOR_U8, CF_BITXOR_USIZE, CF_DIV_I128,
    CF_DIV_I128_FULL, CF_DIV_I16, CF_DIV_I32, CF_DIV_I32_FULL, CF_DIV_I64, CF_DIV_I64_FULL, CF_DIV_I8,
    CF_DIV_ISIZE, CF_DIV_U128, CF_DIV_U16, CF_DIV_U32, CF_DIV_U64, CF_DIV_U8, CF_DIV_USIZE, CF_EQ_BOOL,
    CF_EQ_I128, CF_EQ_I32, CF_EQ_I64, CF_GE_I128, CF_GE_I32, CF_GE_I64, CF_GT_I128, CF_GT_I32, CF_GT_I64,
    CF_LE_I128, CF_LE_I32, CF_LE_I64, CF_LT_I128, CF_LT_I32, CF_LT_I64, CF_MOD_I128, CF_MOD_I128_FULL,
    CF_MOD_I16, CF_MOD_I32, CF_MOD_I32_FULL, CF_MOD_I64, CF_MOD_I64_FULL, CF_MOD_I8, CF_MOD_ISIZE,
    CF_MOD_U128, CF_MOD_U16, CF_MOD_U32, CF_MOD_U64, CF_MOD_U8, CF_MOD_USIZE, CF_MUL_I128, CF_MUL_I128_FULL,
    CF_MUL_I16, CF_MUL_I32, CF_MUL_I32_FULL, CF_MUL_I64, CF_MUL_I64_FULL, CF_MUL_I8, CF_MUL_ISIZE,
    CF_MUL_U128, CF_MUL_U16, CF_MUL_U32, CF_MUL_U64, CF_MUL_U8, CF_MUL_USIZE, CF_NEG_I128, CF_NEG_I128_FULL,
    CF_NEG_I16, CF_NEG_I32, CF_NEG_I32_FULL, CF_NEG_I64, CF_NEG_I64_FULL, CF_NEG_I8, CF_NEG_ISIZE,
    CF_NEG_U128, CF_NEG_U16, CF_NEG_U32, CF_NEG_U64, CF_NEG_U8, CF_NEG_USIZE, CF_NE_I128, CF_NE_I32,
    CF_NE_I64, CF_NOT_BOOL, CF_OR_BOOL, CF_SHL_I128, CF_SHL_I128_FULL, CF_SHL_I16, CF_SHL_I32,
    CF_SHL_I32_FULL, CF_SHL_I64, CF_SHL_I64_FULL, CF_SHL_I8, CF_SHL_ISIZE, CF_SHL_U128, CF_SHL_U16,
    CF_SHL_U32, CF_SHL_U64, CF_SHL_U8, CF_SHL_USIZE, CF_SHR_I128, CF_SHR_I128_FULL, CF_SHR_I16, CF_SHR_I32,
    CF_SHR_I32_FULL, CF_SHR_I64, CF_SHR_I64_FULL, CF_SHR_I8, CF_SHR_ISIZE, CF_SHR_U128, CF_SHR_U16,
    CF_SHR_U32, CF_SHR_U64, CF_SHR_U8, CF_SHR_USIZE, CF_SUB_I128, CF_SUB_I128_FULL, CF_SUB_I16, CF_SUB_I32,
    CF_SUB_I32_FULL, CF_SUB_I64, CF_SUB_I64_FULL, CF_SUB_I8, CF_SUB_ISIZE, CF_SUB_U128, CF_SUB_U16,
    CF_SUB_U32, CF_SUB_U64, CF_SUB_U8, CF_SUB_USIZE,
};
use crate::ir::types::{ComputeFnId, ConstValue};

verus! {

// ---- which id is which operation -------------------------------------------

/// Comparisons of integers.
#[derive(Clone, Copy, Debug, PartialEq, Eq, Structural)]
pub enum Relation {
    Eq,
    Ne,
    Lt,
    Gt,
    Le,
    Ge,
}

/// Operations of the general block: twelve types with twelve operations each.
pub open spec fn block_ty(k: int) -> IntTy {
    if k == 0 {
        IntTy::I8
    } else if k == 1 {
        IntTy::I16
    } else if k == 2 {
        IntTy::I32
    } else if k == 3 {
        IntTy::I64
    } else if k == 4 {
        IntTy::I128
    } else if k == 5 {
        IntTy::U8
    } else if k == 6 {
        IntTy::U16
    } else if k == 7 {
        IntTy::U32
    } else if k == 8 {
        IntTy::U64
    } else if k == 9 {
        IntTy::U128
    } else if k == 10 {
        IntTy::Isize
    } else {
        IntTy::Usize
    }
}

pub open spec fn block_op(k: int) -> IntOp {
    if k == 0 {
        IntOp::Add
    } else if k == 1 {
        IntOp::Sub
    } else if k == 2 {
        IntOp::Mul
    } else if k == 3 {
        IntOp::Div
    } else if k == 4 {
        IntOp::Mod
    } else if k == 5 {
        IntOp::BitAnd
    } else if k == 6 {
        IntOp::BitOr
    } else if k == 7 {
        IntOp::BitXor
    } else if k == 8 {
        IntOp::Shl
    } else if k == 9 {
        IntOp::Shr
    } else if k == 10 {
        IntOp::Neg
    } else {
        IntOp::BitNot
    }
}

/// The integer operation that a compute function performs, and on which type.
pub open spec fn int_op_of(id: u32) -> Option<(IntOp, IntTy)> {
    if 92 <= id <= 235 {
        Some((block_op((id - 92) % 12), block_ty((id - 92) / 12)))
    } else if id == 1 {
        Some((IntOp::Add, IntTy::I32))
    } else if id == 3 {
        Some((IntOp::Mul, IntTy::I32))
    } else if id == 5 {
        Some((IntOp::Sub, IntTy::I32))
    } else if id == 6 {
        Some((IntOp::Div, IntTy::I32))
    } else if id == 7 {
        Some((IntOp::Mod, IntTy::I32))
    } else if id == 25 {
        Some((IntOp::Neg, IntTy::I32))
    } else if 50 <= id <= 54 {
        Some((block_op(id - 50), IntTy::I64))
    } else if id == 61 {
        Some((IntOp::Neg, IntTy::I64))
    } else if id == 62 {
        Some((IntOp::BitNot, IntTy::I32))
    } else if id == 63 {
        Some((IntOp::BitNot, IntTy::I64))
    } else if 64 <= id <= 68 {
        Some((block_op(id - 64), IntTy::I128))
    } else if id == 75 {
        Some((IntOp::Neg, IntTy::I128))
    } else if id == 76 {
        Some((IntOp::BitNot, IntTy::I128))
    } else if 77 <= id <= 79 {
        Some((block_op(id - 72), IntTy::I32))
    } else if 80 <= id <= 82 {
        Some((block_op(id - 75), IntTy::I64))
    } else if 83 <= id <= 85 {
        Some((block_op(id - 78), IntTy::I128))
    } else if 86 <= id <= 87 {
        Some((block_op(id - 78), IntTy::I32))
    } else if 88 <= id <= 89 {
        Some((block_op(id - 80), IntTy::I64))
    } else if 90 <= id <= 91 {
        Some((block_op(id - 82), IntTy::I128))
    } else {
        None
    }
}

pub open spec fn relation_at(k: int) -> Relation {
    if k == 0 {
        Relation::Eq
    } else if k == 1 {
        Relation::Ne
    } else if k == 2 {
        Relation::Lt
    } else if k == 3 {
        Relation::Gt
    } else if k == 4 {
        Relation::Le
    } else {
        Relation::Ge
    }
}

/// The comparison that a compute function performs, and on which type.
pub open spec fn relation_of(id: u32) -> Option<(Relation, IntTy)> {
    if id == 4 {
        Some((Relation::Le, IntTy::I32))
    } else if 8 <= id <= 11 {
        Some((relation_at(id - 8), IntTy::I32))
    } else if id == 12 {
        Some((Relation::Ge, IntTy::I32))
    } else if 55 <= id <= 60 {
        Some((relation_at(id - 55), IntTy::I64))
    } else if 69 <= id <= 74 {
        Some((relation_at(id - 69), IntTy::I128))
    } else {
        None
    }
}

pub open spec fn relation_holds(r: Relation, a: int, b: int) -> bool {
    match r {
        Relation::Eq => a == b,
        Relation::Ne => a != b,
        Relation::Lt => a < b,
        Relation::Gt => a > b,
        Relation::Le => a <= b,
        Relation::Ge => a >= b,
    }
}

// ---- folding one operation -------------------------------------------------

/// Argument `k` as a number of the type, if it is one.
pub open spec fn typed_arg(args: Seq<ConstValue>, k: int, ty: IntTy) -> Option<int> {
    if k < args.len() {
        match int_of(args[k]) {
            Some((t, v)) => if t == ty {
                Some(v)
            } else {
                None
            },
            None => None,
        }
    } else {
        None
    }
}

pub open spec fn bool_arg(args: Seq<ConstValue>, k: int) -> Option<bool> {
    if k < args.len() {
        match args[k] {
            ConstValue::Bool(b) => Some(b),
            _ => None,
        }
    } else {
        None
    }
}

pub open spec fn is_unary(op: IntOp) -> bool {
    op == IntOp::Neg || op == IntOp::BitNot
}

pub open spec fn is_shift(op: IntOp) -> bool {
    op == IntOp::Shl || op == IntOp::Shr
}

/// Result of an integer operation on constants; shift amounts are of type
/// `i32` whatever is shifted.
pub open spec fn folded_int(op: IntOp, ty: IntTy, args: Seq<ConstValue>) -> Option<ConstValue> {
    let second = if is_unary(op) {
        Some(0int)
    } else if is_shift(op) {
        typed_arg(args, 1, IntTy::I32)
    } else {
        typed_arg(args, 1, ty)
    };
    match (typed_arg(args, 0, ty), second) {
        (Some(a), Some(b)) => match int_result(op, ty, a, b) {
            Some(v) => Some(const_of(ty, v)),
            None => None,
        },
        _ => None,
    }
}

/// Result of a compute function on constants, if it folds.
pub open spec fn folded(id: u32, args: Seq<ConstValue>) -> Option<ConstValue> {
    if int_op_of(id) is Some {
        folded_int((int_op_of(id)->0).0, (int_op_of(id)->0).1, args)
    } else if relation_of(id) is Some {
        let ty = (relation_of(id)->0).1;
        match (typed_arg(args, 0, ty), typed_arg(args, 1, ty)) {
            (Some(a), Some(b)) => Some(
                ConstValue::Bool(relation_holds((relation_of(id)->0).0, a, b)),
            ),
            _ => None,
        }
    } else if id == 24 {
        match bool_arg(args, 0) {
            Some(a) => Some(ConstValue::Bool(!a)),
            None => None,
        }
    } else if id == 22 || id == 23 || id == 27 {
        match (bool_arg(args, 0), bool_arg(args, 1)) {
            (Some(a), Some(b)) => Some(
                ConstValue::Bool(
                    if id == 22 {
                        a && b
                    } else if id == 23 {
                        a || b
                    } else {
                        a == b
                    },
                ),
            ),
            _ => None,
        }
    } else {
        None
    }
}

fn block_type(k: u32) -> (r: IntTy)
    requires
        k < 12,
    ensures
        r == block_ty(k as int),
{
    match k {
        0 => IntTy::I8,
        1 => IntTy::I16,
        2 => IntTy::I32,
        3 => IntTy::I64,
        4 => IntTy::I128,
        5 => IntTy::U8,
        6 => IntTy::U16,
        7 => IntTy::U32,
        8 => IntTy::U64,
        9 => IntTy::U128,
        10 => IntTy::Isize,
        _ => IntTy::Usize,
    }
}

fn block_operation(k: u32) -> (r: IntOp)
    requires
        k < 12,
    ensures
        r == block_op(k as int),
{
    match k {
        0 => IntOp::Add,
        1 => IntOp::Sub,
        2 => IntOp::Mul,
        3 => IntOp::Div,
        4 => IntOp::Mod,
        5 => IntOp::BitAnd,
        6 => IntOp::BitOr,
        7 => IntOp::BitXor,
        8 => IntOp::Shl,
        9 => IntOp::Shr,
        10 => IntOp::Neg,
        _ => IntOp::BitNot,
    }
}

fn find_int_op(id: u32) -> (r: Option<(IntOp, IntTy)>)
    ensures
        r == int_op_of(id),
{
    match id {
        1 => Some((IntOp::Add, IntTy::I32)),
        3 => Some((IntOp::Mul, IntTy::I32)),
        5 => Some((IntOp::Sub, IntTy::I32)),
        6 => Some((IntOp::Div, IntTy::I32)),
        7 => Some((IntOp::Mod, IntTy::I32)),
        25 => Some((IntOp::Neg, IntTy::I32)),
        50..=54 => Some((block_operation(id - 50), IntTy::I64)),
        61 => Some((IntOp::Neg, IntTy::I64)),
        62 => Some((IntOp::BitNot, IntTy::I32)),
        63 => Some((IntOp::BitNot, IntTy::I64)),
        64..=68 => Some((block_operation(id - 64), IntTy::I128)),
        75 => Some((IntOp::Neg, IntTy::I128)),
        76 => Some((IntOp::BitNot, IntTy::I128)),
        77..=79 => Some((block_operation(id - 72), IntTy::I32)),
        80..=82 => Some((block_operation(id - 75), IntTy::I64)),
        83..=85 => Some((block_operation(id - 78), IntTy::I128)),
        86..=87 => Some((block_operation(id - 78), IntTy::I32)),
        88..=89 => Some((block_operation(id - 80), IntTy::I64)),
        90..=91 => Some((block_operation(id - 82), IntTy::I128)),
        92..=235 => {
            let offset = id - 92;
            Some((block_operation(offset % 12), block_type(offset / 12)))
        },
        _ => None,
    }
}

fn relation_number(k: u32) -> (r: Relation)
    ensures
        r == relation_at(k as int),
{
    match k {
        0 => Relation::Eq,
        1 => Relation::Ne,
        2 => Relation::Lt,
        3 => Relation::Gt,
        4 => Relation::Le,
        _ => Relation::Ge,
    }
}

fn find_relation(id: u32) -> (r: Option<(Relation, IntTy)>)
    ensures
        r == relation_of(id),
{
    match id {
        4 => Some((Relation::Le, IntTy::I32)),
        8..=11 => Some((relation_number(id - 8), IntTy::I32)),
        12 => Some((Relation::Ge, IntTy::I32)),
        55..=60 => Some((relation_number(id - 55), IntTy::I64)),
        69..=74 => Some((relation_number(id - 69), IntTy::I128)),
        _ => None,
    }
}

fn int_arg(args: &[ConstValue], k: usize, ty: IntTy) -> (r: Option<IntBits>)
    ensures
        r is Some <==> typed_arg(args@, k as int, ty) is Some,
        r is Some ==> r->0.wf() && r->0.ty == ty && typed_arg(args@, k as int, ty) == Some(
            r->0.value(),
        ),
{
    if k >= args.len() {
        return None;
    }
    match IntBits::from_const(args[k]) {
        None => None,
        Some(b) => if b.ty == ty {
            Some(b)
        } else {
            None
        },
    }
}

fn flag_arg(args: &[ConstValue], k: usize) -> (r: Option<bool>)
    ensures
        r == bool_arg(args@, k as int),
{
    if k >= args.len() {
        return None;
    }
    match args[k] {
        ConstValue::Bool(b) => Some(b),
        _ => None,
    }
}

fn fold_int(op: IntOp, ty: IntTy, args: &[ConstValue]) -> (r: Option<ConstValue>)
    ensures
        r == folded_int(op, ty, args@),
{
    let a = match int_arg(args, 0, ty) {
        None => {
            return None;
        },
        Some(a) => a,
    };
    let mut amount: i32 = 0;
    let mut b = a;
    if op == IntOp::Shl || op == IntOp::Shr {
        if args.len() < 2 {
            return None;
        }
        match args[1] {
            ConstValue::I32(s) => {
                amount = s;
            },
            _ => {
                return None;
            },
        }
        assert(typed_arg(args@, 1, IntTy::I32) == Some(amount as int));
    } else if !(op == IntOp::Neg || op == IntOp::BitNot) {
        match int_arg(args, 1, ty) {
            None => {
                return None;
            },
            Some(second) => {
                b = second;
            },
        }
    }
    match apply_int(op, a, b, amount) {
        None => None,
        Some(v) => Some(v.to_const()),
    }
}

fn compare_ints(r: Relation, a: IntBits, b: IntBits) -> (holds: bool)
    requires
        a.wf(),
        b.wf(),
        a.ty == b.ty,
    ensures
        holds == relation_holds(r, a.value(), b.value()),
{
    let less = a.less_than(b);
    let equal = a.bits == b.bits;
    proof {
        crate::arith::lemma_value(a);
        crate::arith::lemma_value(b);
    }
    match r {
        Relation::Eq => equal,
        Relation::Ne => !equal,
        Relation::Lt => less,
        Relation::Gt => !less && !equal,
        Relation::Le => less || equal,
        Relation::Ge => !less,
    }
}

/// Evaluates a compute function on constant arguments; none if it does not
/// fold (wrong types, no such operation, or an operation without a result).
pub fn try_fold(cf: ComputeFnId, args: &[ConstValue]) -> (r: Option<ConstValue>)
    ensures
        r == folded(cf.0, args@),
{
    if let Some((op, ty)) = find_int_op(cf.0) {
        return fold_int(op, ty, args);
    }
    if let Some((rel, ty)) = find_relation(cf.0) {
        return match (int_arg(args, 0, ty), int_arg(args, 1, ty)) {
            (Some(a), Some(b)) => Some(ConstValue::Bool(compare_ints(rel, a, b))),
            _ => None,
        };
    }
    match cf.0 {
        24 => match flag_arg(args, 0) {
            Some(a) => Some(ConstValue::Bool(!a)),
            None => None,
        },
        22 => match (flag_arg(args, 0), flag_arg(args, 1)) {
            (Some(a), Some(b)) => Some(ConstValue::Bool(a && b)),
            _ => None,
        },
        23 => match (flag_arg(args, 0), flag_arg(args, 1)) {
            (Some(a), Some(b)) => Some(ConstValue::Bool(a || b)),
            _ => None,
        },
        27 => match (flag_arg(args, 0), flag_arg(args, 1)) {
            (Some(a), Some(b)) => Some(ConstValue::Bool(a == b)),
            _ => None,
        },
        _ => None,
    }
}

// ---- laws ------------------------------------------------------------------

/// Where a compute function performs an operation on a type, folding it takes
/// the first constant for the left operand and the second for the right one;
/// an amount to shift by is an `i32`.
pub proof fn law_folding_takes_operands_in_order(id: u32, op: IntOp, ty: IntTy, a: ConstValue, b: ConstValue)
    requires
        int_op_of(id) == Some((op, ty)),
        op != IntOp::Neg,
        op != IntOp::BitNot,
        int_of(a) matches Some((t, _)) && t == ty,
        int_of(b) matches Some((t, _)) && t == (if op == IntOp::Shl || op == IntOp::Shr {
            IntTy::I32
        } else {
            ty
        }),
    ensures
        folded(id, seq![a, b]) == match int_result(op, ty, (int_of(a)->0).1, (int_of(b)->0).1) {
            Some(v) => Some(const_of(ty, v)),
            None => None,
        },
{
    assert(seq![a, b][0] == a && seq![a, b][1] == b);
}

/// Operations of a type fold only on constants of that type.
pub proof fn law_folding_keeps_types_apart(id: u32, args: Seq<ConstValue>)
    requires
        int_op_of(id) is Some,
        folded(id, args) is Some,
    ensures
        args.len() > 0,
        int_of(args[0]) matches Some((t, _)) && t == (int_op_of(id)->0).1,
        int_of(folded(id, args)->0) matches Some((t, _)) && t == (int_op_of(id)->0).1,
{
}

/// Comparisons compare the first constant with the second one.
pub proof fn law_comparisons_of_i32(a: i32, b: i32)
    ensures
        ({
            let args = seq![ConstValue::I32(a), ConstValue::I32(b)];
            &&& folded(CF_EQ_I32, args) == Some(ConstValue::Bool(a == b))
            &&& folded(CF_NE_I32, args) == Some(ConstValue::Bool(a != b))
            &&& folded(CF_LT_I32, args) == Some(ConstValue::Bool(a < b))
            &&& folded(CF_GT_I32, args) == Some(ConstValue::Bool(a > b))
            &&& folded(CF_LE_I32, args) == Some(ConstValue::Bool(a <= b))
            &&& folded(CF_GE_I32, args) == Some(ConstValue::Bool(a >= b))
        }),
{
}

/// The same for `i64`.
pub proof fn law_comparisons_of_i64(a: i64, b: i64)
    ensures
        ({
            let args = seq![ConstValue::I64(a), ConstValue::I64(b)];
            &&& folded(CF_EQ_I64, args) == Some(ConstValue::Bool(a == b))
            &&& folded(CF_NE_I64, args) == Some(ConstValue::Bool(a != b))
            &&& folded(CF_LT_I64, args) == Some(ConstValue::Bool(a < b))
            &&& folded(CF_GT_I64, args) == Some(ConstValue::Bool(a > b))
            &&& folded(CF_LE_I64, args) == Some(ConstValue::Bool(a <= b))
            &&& folded(CF_GE_I64, args) == Some(ConstValue::Bool(a >= b))
        }),
{
}

/// The same for `i128`.
pub proof fn law_comparisons_of_i128(a: i128, b: i128)
    ensures
        ({
            let args = seq![ConstValue::I128(a), ConstValue::I128(b)];
            &&& folded(CF_EQ_I128, args) == Some(ConstValue::Bool(a == b))
            &&& folded(CF_NE_I128, args) == Some(ConstValue::Bool(a != b))
            &&& folded(CF_LT_I128, args) == Some(ConstValue::Bool(a < b))
            &&& folded(CF_GT_I128, args) == Some(ConstValue::Bool(a > b))
            &&& folded(CF_LE_I128, args) == Some(ConstValue::Bool(a <= b))
            &&& folded(CF_GE_I128, args) == Some(ConstValue::Bool(a >= b))
        }),
{
}

/// Connectives of truth values fold to what they mean.
pub proof fn law_connectives(a: bool, b: bool)
    ensures
        folded(CF_AND_BOOL, seq![ConstValue::Bool(a), ConstValue::Bool(b)]) == Some(ConstValue::Bool(a && b)),
        folded(CF_OR_BOOL, seq![ConstValue::Bool(a), ConstValue::Bool(b)]) == Some(ConstValue::Bool(a || b)),
        folded(CF_EQ_BOOL, seq![ConstValue::Bool(a), ConstValue::Bool(b)]) == Some(ConstValue::Bool(a == b)),
        folded(CF_NOT_BOOL, seq![ConstValue::Bool(a)]) == Some(ConstValue::Bool(!a)),
{
}

/// The operation that a compute function performs, and on which type, is the
/// one that it is named after.
pub open spec fn named_after(add: u32, sub: u32, mul: u32, div: u32, rem: u32, neg: u32, ty: IntTy) -> bool {
    &&& int_op_of(add) == Some((IntOp::Add, ty))
    &&& int_op_of(sub) == Some((IntOp::Sub, ty))
    &&& int_op_of(mul) == Some((IntOp::Mul, ty))
    &&& int_op_of(div) == Some((IntOp::Div, ty))
    &&& int_op_of(rem) == Some((IntOp::Mod, ty))
    &&& int_op_of(neg) == Some((IntOp::Neg, ty))
}

/// The same of the operations on bits.
pub open spec fn bits_named_after(and: u32, or: u32, xor: u32, shl: u32, shr: u32, not: u32, ty: IntTy) -> bool {
    &&& int_op_of(and) == Some((IntOp::BitAnd, ty))
    &&& int_op_of(or) == Some((IntOp::BitOr, ty))
    &&& int_op_of(xor) == Some((IntOp::BitXor, ty))
    &&& int_op_of(shl) == Some((IntOp::Shl, ty))
    &&& int_op_of(shr) == Some((IntOp::Shr, ty))
    &&& int_op_of(not) == Some((IntOp::BitNot, ty))
}

/// Every arithmetic operation of every integer type is performed under its name.
pub proof fn law_arithmetic_is_performed_under_its_name()
    ensures
        named_after(CF_ADD_I8, CF_SUB_I8, CF_MUL_I8, CF_DIV_I8, CF_MOD_I8, CF_NEG_I8, IntTy::I8),
        named_after(CF_ADD_I16, CF_SUB_I16, CF_MUL_I16, CF_DIV_I16, CF_MOD_I16, CF_NEG_I16, IntTy::I16),
        named_after(CF_ADD_I32, CF_SUB_I32, CF_MUL_I32, CF_DIV_I32, CF_MOD_I32, CF_NEG_I32, IntTy::I32),
        named_after(CF_ADD_I64, CF_SUB_I64, CF_MUL_I64, CF_DIV_I64, CF_MOD_I64, CF_NEG_I64, IntTy::I64),
        named_after(CF_ADD_I128, CF_SUB_I128, CF_MUL_I128, CF_DIV_I128, CF_MOD_I128, CF_NEG_I128, IntTy::I128),
        named_after(CF_ADD_I32_FULL, CF_SUB_I32_FULL, CF_MUL_I32_FULL, CF_DIV_I32_FULL, CF_MOD_I32_FULL, CF_NEG_I32_FULL, IntTy::I32),
        named_after(CF_ADD_I64_FULL, CF_SUB_I64_FULL, CF_MUL_I64_FULL, CF_DIV_I64_FULL, CF_MOD_I64_FULL, CF_NEG_I64_FULL, IntTy::I64),
        named_after(CF_ADD_I128_FULL, CF_SUB_I128_FULL, CF_MUL_I128_FULL, CF_DIV_I128_FULL, CF_MOD_I128_FULL, CF_NEG_I128_FULL, IntTy::I128),
        named_after(CF_ADD_U8, CF_SUB_U8, CF_MUL_U8, CF_DIV_U8, CF_MOD_U8, CF_NEG_U8, IntTy::U8),
        named_after(CF_ADD_U16, CF_SUB_U16, CF_MUL_U16, CF_DIV_U16, CF_MOD_U16, CF_NEG_U16, IntTy::U16),
        named_after(CF_ADD_U32, CF_SUB_U32, CF_MUL_U32, CF_DIV_U32, CF_MOD_U32, CF_NEG_U32, IntTy::U32),
        named_after(CF_ADD_U64, CF_SUB_U64, CF_MUL_U64, CF_DIV_U64, CF_MOD_U64, CF_NEG_U64, IntTy::U64),
        named_after(CF_ADD_U128, CF_SUB_U128, CF_MUL_U128, CF_DIV_U128, CF_MOD_U128, CF_NEG_U128, IntTy::U128),
        named_after(CF_ADD_ISIZE, CF_SUB_ISIZE, CF_MUL_ISIZE, CF_DIV_ISIZE, CF_MOD_ISIZE, CF_NEG_ISIZE, IntTy::Isize),
        named_after(CF_ADD_USIZE, CF_SUB_USIZE, CF_MUL_USIZE, CF_DIV_USIZE, CF_MOD_USIZE, CF_NEG_USIZE, IntTy::Usize),
{
}

/// Every operation on bits of every integer type is performed under its name.
pub proof fn law_bit_operations_are_performed_under_their_names()
    ensures
        bits_named_after(CF_BITAND_I8, CF_BITOR_I8, CF_BITXOR_I8, CF_SHL_I8, CF_SHR_I8, CF_BITNOT_I8, IntTy::I8),
        bits_named_after(CF_BITAND_I16, CF_BITOR_I16, CF_BITXOR_I16, CF_SHL_I16, CF_SHR_I16, CF_BITNOT_I16, IntTy::I16),
        bits_named_after(CF_BITAND_I32, CF_BITOR_I32, CF_BITXOR_I32, CF_SHL_I32, CF_SHR_I32, CF_BITNOT_I32, IntTy::I32),
        bits_named_after(CF_BITAND_I64, CF_BITOR_I64, CF_BITXOR_I64, CF_SHL_I64, CF_SHR_I64, CF_BITNOT_I64, IntTy::I64),
        bits_named_after(CF_BITAND_I128, CF_BITOR_I128, CF_BITXOR_I128, CF_SHL_I128, CF_SHR_I128, CF_BITNOT_I128, IntTy::I128),
        bits_named_after(CF_BITAND_I32_FULL, CF_BITOR_I32_FULL, CF_BITXOR_I32_FULL, CF_SHL_I32_FULL, CF_SHR_I32_FULL, CF_BITNOT_I32_FULL, IntTy::I32),
        bits_named_after(CF_BITAND_I64_FULL, CF_BITOR_I64_FULL, CF_BITXOR_I64_FULL, CF_SHL_I64_FULL, CF_SHR_I64_FULL, CF_BITNOT_I64_FULL, IntTy::I64),
        bits_named_after(CF_BITAND_I128_FULL, CF_BITOR_I128_FULL, CF_BITXOR_I128_FULL, CF_SHL_I128_FULL, CF_SHR_I128_FULL, CF_BITNOT_I128_FULL, IntTy::I128),
        bits_named_after(CF_BITAND_U8, CF_BITOR_U8, CF_BITXOR_U8, CF_SHL_U8, CF_SHR_U8, CF_BITNOT_U8, IntTy::U8),
        bits_named_after(CF_BITAND_U16, CF_BITOR_U16, CF_BITXOR_U16, CF_SHL_U16, CF_SHR_U16, CF_BITNOT_U16, IntTy::U16),
        bits_named_after(CF_BITAND_U32, CF_BITOR_U32, CF_BITXOR_U32, CF_SHL_U32, CF_SHR_U32, CF_BITNOT_U32, IntTy::U32),
        bits_named_after(CF_BITAND_U64, CF_BITOR_U64, CF_BITXOR_U64, CF_SHL_U64, CF_SHR_U64, CF_BITNOT_U64, IntTy::U64),
        bits_named_after(CF_BITAND_U128, CF_BITOR_U128, CF_BITXOR_U128, CF_SHL_U128, CF_SHR_U128, CF_BITNOT_U128, IntTy::U128),
        bits_named_after(CF_BITAND_ISIZE, CF_BITOR_ISIZE, CF_BITXOR_ISIZE, CF_SHL_ISIZE, CF_SHR_ISIZE, CF_BITNOT_ISIZE, IntTy::Isize),
        bits_named_after(CF_BITAND_USIZE, CF_BITOR_USIZE, CF_BITXOR_USIZE, CF_SHL_USIZE, CF_SHR_USIZE, CF_BITNOT_USIZE, IntTy::Usize),
{
}

} // verus!
