//! Integer arithmetic of the language: two's-complement integers of twelve
//! types.
//!
//! Addition, subtraction, multiplication and negation wrap. Division and
//! remainder have no result for a zero divisor or where the quotient does not
//! fit; shifts have none for an amount outside the width.

use vstd::arithmetic::div_mod::*;
use vstd::arithmetic::mul::*;
use vstd::arithmetic::power2::*;
use vstd::prelude::*;

use crate::ir::types::ConstValue;

verus! {

/// Integer types.
#[derive(Clone, Copy, Debug, PartialEq, Eq, Structural)]
pub enum IntTy {
    I8,
    I16,
    I32,
    I64,
    I128,
    U8,
    U16,
    U32,
    U64,
    U128,
    Isize,
    Usize,
}

impl IntTy {
    /// Width in bits.
    pub open spec fn width(self) -> nat {
        match self {
            IntTy::I8 | IntTy::U8 => 8,
            IntTy::I16 | IntTy::U16 => 16,
            IntTy::I32 | IntTy::U32 => 32,
            IntTy::I64 | IntTy::U64 => 64,
            IntTy::I128 | IntTy::U128 => 128,
            IntTy::Isize | IntTy::Usize => usize::BITS as nat,
        }
    }

    pub open spec fn is_signed(self) -> bool {
        match self {
            IntTy::I8 | IntTy::I16 | IntTy::I32 | IntTy::I64 | IntTy::I128 | IntTy::Isize => true,
            _ => false,
        }
    }

    /// Number of values of the type.
    pub open spec fn modulus(self) -> int {
        pow2(self.width()) as int
    }

    /// Whether the type holds the number.
    pub open spec fn holds(self, x: int) -> bool {
        if self.is_signed() {
            -(self.modulus() / 2) <= x < self.modulus() / 2
        } else {
            0 <= x < self.modulus()
        }
    }

    /// The number of the type that is congruent to `x`.
    pub open spec fn wrap(self, x: int) -> int {
        let r = x % self.modulus();
        if self.is_signed() && r >= self.modulus() / 2 {
            r - self.modulus()
        } else {
            r
        }
    }

    pub fn bits(self) -> (r: u32)
        ensures
            r == self.width(),
            8 <= r <= 128,
    {
        match self {
            IntTy::I8 | IntTy::U8 => 8,
            IntTy::I16 | IntTy::U16 => 16,
            IntTy::I32 | IntTy::U32 => 32,
            IntTy::I64 | IntTy::U64 => 64,
            IntTy::I128 | IntTy::U128 => 128,
            IntTy::Isize | IntTy::Usize => usize::BITS,
        }
    }

    pub fn signed(self) -> (r: bool)
        ensures
            r == self.is_signed(),
    {
        matches!(
            self,
            IntTy::I8 | IntTy::I16 | IntTy::I32 | IntTy::I64 | IntTy::I128 | IntTy::Isize
        )
    }
}

/// An integer of a type, as the bits it is stored in.
#[derive(Clone, Copy, Debug, PartialEq, Eq, Structural)]
pub struct IntBits {
    pub ty: IntTy,
    pub bits: u128,
}

impl IntBits {
    pub open spec fn wf(self) -> bool {
        self.bits < self.ty.modulus()
    }

    /// The number that the bits stand for.
    pub open spec fn value(self) -> int {
        if self.ty.is_signed() && self.bits >= self.ty.modulus() / 2 {
            self.bits - self.ty.modulus()
        } else {
            self.bits as int
        }
    }
}

/// Type and value of an integer constant.
pub open spec fn int_of(cv: ConstValue) -> Option<(IntTy, int)> {
    match cv {
        ConstValue::I8(v) => Some((IntTy::I8, v as int)),
        ConstValue::I16(v) => Some((IntTy::I16, v as int)),
        ConstValue::I32(v) => Some((IntTy::I32, v as int)),
        ConstValue::I64(v) => Some((IntTy::I64, v as int)),
        ConstValue::I128(v) => Some((IntTy::I128, v as int)),
        ConstValue::U8(v) => Some((IntTy::U8, v as int)),
        ConstValue::U16(v) => Some((IntTy::U16, v as int)),
        ConstValue::U32(v) => Some((IntTy::U32, v as int)),
        ConstValue::U64(v) => Some((IntTy::U64, v as int)),
        ConstValue::U128(v) => Some((IntTy::U128, v as int)),
        ConstValue::Isize(v) => Some((IntTy::Isize, v as int)),
        ConstValue::Usize(v) => Some((IntTy::Usize, v as int)),
        _ => None,
    }
}

/// The constant of a type with a value that the type holds.
pub open spec fn const_of(ty: IntTy, v: int) -> ConstValue {
    match ty {
        IntTy::I8 => ConstValue::I8(v as i8),
        IntTy::I16 => ConstValue::I16(v as i16),
        IntTy::I32 => ConstValue::I32(v as i32),
        IntTy::I64 => ConstValue::I64(v as i64),
        IntTy::I128 => ConstValue::I128(v as i128),
        IntTy::U8 => ConstValue::U8(v as u8),
        IntTy::U16 => ConstValue::U16(v as u16),
        IntTy::U32 => ConstValue::U32(v as u32),
        IntTy::U64 => ConstValue::U64(v as u64),
        IntTy::U128 => ConstValue::U128(v as u128),
        IntTy::Isize => ConstValue::Isize(v as isize),
        IntTy::Usize => ConstValue::Usize(v as usize),
    }
}

/// Widths and the bounds of the machine types.
pub proof fn lemma_widths(ty: IntTy)
    ensures
        ty.modulus() >= 256,
        ty.modulus() % 2 == 0,
        ty.modulus() <= (u128::MAX + 1),
        ty == IntTy::I8 || ty == IntTy::U8 ==> ty.modulus() == 0x100,
        ty == IntTy::I16 || ty == IntTy::U16 ==> ty.modulus() == 0x1_0000,
        ty == IntTy::I32 || ty == IntTy::U32 ==> ty.modulus() == 0x1_0000_0000,
        ty == IntTy::I64 || ty == IntTy::U64 ==> ty.modulus() == 0x1_0000_0000_0000_0000,
        ty == IntTy::I128 || ty == IntTy::U128 ==> ty.modulus()
            == (u128::MAX + 1),
        ty == IntTy::Isize || ty == IntTy::Usize ==> ty.modulus() == usize::MAX + 1,
        pow2(128) == (u128::MAX + 1),
{
    lemma2_to64();
    lemma2_to64_rest();
    lemma_pow2_adds(64, 64);
    assert(pow2(128) == (u128::MAX + 1));
    assert(usize::BITS == 32 || usize::BITS == 64);
}

/// Bits of a number in a type.
pub open spec fn bits_of(ty: IntTy, v: int) -> u128 {
    (v % ty.modulus()) as u128
}

/// Quotient truncated toward zero.
pub open spec fn quotient(a: int, b: int) -> int {
    let q = abs(a) / abs(b);
    if (a < 0) == (b < 0) {
        q
    } else {
        -q
    }
}

/// Remainder with the sign of the dividend.
pub open spec fn remainder(a: int, b: int) -> int {
    let r = abs(a) % abs(b);
    if a < 0 {
        -r
    } else {
        r
    }
}

pub open spec fn abs(a: int) -> int {
    if a < 0 {
        -a
    } else {
        a
    }
}

/// Integer operations.
#[derive(Clone, Copy, Debug, PartialEq, Eq, Structural)]
pub enum IntOp {
    Add,
    Sub,
    Mul,
    Div,
    Mod,
    BitAnd,
    BitOr,
    BitXor,
    Shl,
    Shr,
    Neg,
    BitNot,
}

/// Result of an operation on numbers of the type; unary operations ignore the
/// second number, and a shift takes its amount there.
pub open spec fn int_result(op: IntOp, ty: IntTy, a: int, b: int) -> Option<int> {
    match op {
        IntOp::Add => Some(ty.wrap(a + b)),
        IntOp::Sub => Some(ty.wrap(a - b)),
        IntOp::Mul => Some(ty.wrap(a * b)),
        IntOp::Div => if b == 0 || !ty.holds(quotient(a, b)) {
            None
        } else {
            Some(quotient(a, b))
        },
        IntOp::Mod => if b == 0 || !ty.holds(quotient(a, b)) {
            None
        } else {
            Some(remainder(a, b))
        },
        IntOp::BitAnd => Some(ty.wrap((bits_of(ty, a) & bits_of(ty, b)) as int)),
        IntOp::BitOr => Some(ty.wrap((bits_of(ty, a) | bits_of(ty, b)) as int)),
        IntOp::BitXor => Some(ty.wrap((bits_of(ty, a) ^ bits_of(ty, b)) as int)),
        IntOp::Shl => if 0 <= b < ty.width() {
            Some(ty.wrap(a * pow2(b as nat)))
        } else {
            None
        },
        IntOp::Shr => if 0 <= b < ty.width() {
            Some(a / (pow2(b as nat) as int))
        } else {
            None
        },
        IntOp::Neg => Some(ty.wrap(-a)),
        IntOp::BitNot => Some(ty.wrap(-1 - a)),
    }
}

impl IntTy {
    /// The bits of the type, all set.
    fn max_bits(self) -> (r: u128)
        ensures
            r == self.modulus() - 1,
    {
        proof {
            lemma_widths(self);
        }
        match self {
            IntTy::I8 | IntTy::U8 => 0xff,
            IntTy::I16 | IntTy::U16 => 0xffff,
            IntTy::I32 | IntTy::U32 => 0xffff_ffff,
            IntTy::I64 | IntTy::U64 => 0xffff_ffff_ffff_ffff,
            IntTy::I128 | IntTy::U128 => 0xffff_ffff_ffff_ffff_ffff_ffff_ffff_ffff,
            IntTy::Isize | IntTy::Usize => usize::MAX as u128,
        }
    }

    /// The low bits of a number.
    pub fn truncate(self, x: u128) -> (r: IntBits)
        ensures
            r.ty == self,
            r.wf(),
            r.bits == x as int % self.modulus(),
            r.value() == self.wrap(x as int),
    {
        proof {
            lemma_widths(self);
        }
        let max = self.max_bits();
        if max == 0xffff_ffff_ffff_ffff_ffff_ffff_ffff_ffff {
            proof {
                lemma_small_mod(x as nat, self.modulus() as nat);
            }
            IntBits { ty: self, bits: x }
        } else {
            proof {
                lemma_mod_bound(x as int, self.modulus());
            }
            IntBits { ty: self, bits: x % (max + 1) }
        }
    }
}

/// The value of stored bits is held by the type, and has these bits.
pub proof fn lemma_value(a: IntBits)
    requires
        a.wf(),
    ensures
        a.ty.holds(a.value()),
        a.value() % a.ty.modulus() == a.bits,
        a.ty.wrap(a.value()) == a.value(),
        bits_of(a.ty, a.value()) == a.bits,
{
    lemma_widths(a.ty);
    let m = a.ty.modulus();
    lemma_small_mod(a.bits as nat, m as nat);
    if a.value() < 0 {
        lemma_mod_add_multiples_vanish(a.value(), m);
        assert(a.value() + m == a.bits);
    }
}

/// Residues modulo 2^128 keep residues modulo the type's modulus.
pub proof fn lemma_residue(ty: IntTy, x: int)
    ensures
        (x % (u128::MAX + 1)) % ty.modulus() == x % ty.modulus(),
{
    lemma_widths(ty);
    let w = ty.width();
    assert(usize::BITS == 32 || usize::BITS == 64);
    lemma_pow2_adds(w, (128 - w) as nat);
    lemma_pow2_pos((128 - w) as nat);
    lemma_mod_mod(x, ty.modulus(), pow2((128 - w) as nat) as int);
}

impl IntBits {
    /// Splits an integer constant into type and bits.
    pub fn from_const(cv: ConstValue) -> (r: Option<IntBits>)
        ensures
            r is Some <==> int_of(cv) is Some,
            r is Some ==> r->0.wf() && int_of(cv) == Some((r->0.ty, r->0.value())),
    {
        match cv {
            ConstValue::I8(v) => Some(IntBits::from_signed(IntTy::I8, v as i128)),
            ConstValue::I16(v) => Some(IntBits::from_signed(IntTy::I16, v as i128)),
            ConstValue::I32(v) => Some(IntBits::from_signed(IntTy::I32, v as i128)),
            ConstValue::I64(v) => Some(IntBits::from_signed(IntTy::I64, v as i128)),
            ConstValue::I128(v) => Some(IntBits::from_signed(IntTy::I128, v)),
            ConstValue::U8(v) => Some(IntBits::from_unsigned(IntTy::U8, v as u128)),
            ConstValue::U16(v) => Some(IntBits::from_unsigned(IntTy::U16, v as u128)),
            ConstValue::U32(v) => Some(IntBits::from_unsigned(IntTy::U32, v as u128)),
            ConstValue::U64(v) => Some(IntBits::from_unsigned(IntTy::U64, v as u128)),
            ConstValue::U128(v) => Some(IntBits::from_unsigned(IntTy::U128, v)),
            ConstValue::Isize(v) => Some(IntBits::from_signed(IntTy::Isize, v as i128)),
            ConstValue::Usize(v) => Some(IntBits::from_unsigned(IntTy::Usize, v as u128)),
            _ => None,
        }
    }

    fn from_signed(ty: IntTy, v: i128) -> (r: IntBits)
        requires
            ty.is_signed(),
            fits_machine(ty, v as int),
        ensures
            r.ty == ty,
            r.wf(),
            r.value() == v,
    {
        proof {
            lemma_widths(ty);
        }
        let max = ty.max_bits();
        if v >= 0 {
            IntBits { ty, bits: v as u128 }
        } else {
            IntBits { ty, bits: max - (-(v + 1)) as u128 }
        }
    }

    fn from_unsigned(ty: IntTy, v: u128) -> (r: IntBits)
        requires
            !ty.is_signed(),
            fits_machine(ty, v as int),
        ensures
            r.ty == ty,
            r.wf(),
            r.value() == v,
    {
        proof {
            lemma_widths(ty);
        }
        IntBits { ty, bits: v }
    }

    /// Whether the number is below zero.
    pub fn is_negative(self) -> (r: bool)
        requires
            self.wf(),
        ensures
            r == (self.value() < 0),
    {
        proof {
            lemma_widths(self.ty);
        }
        self.ty.signed() && self.bits > self.ty.max_bits() / 2
    }

    /// The constant with this type and value.
    pub fn to_const(self) -> (cv: ConstValue)
        requires
            self.wf(),
        ensures
            cv == const_of(self.ty, self.value()),
    {
        proof {
            lemma_widths(self.ty);
            lemma_value(self);
        }
        if self.ty.signed() {
            let v: i128 = if self.is_negative() {
                -((self.ty.max_bits() - self.bits) as i128) - 1
            } else {
                self.bits as i128
            };
            assert(v == self.value());
            match self.ty {
                IntTy::I8 => ConstValue::I8(v as i8),
                IntTy::I16 => ConstValue::I16(v as i16),
                IntTy::I32 => ConstValue::I32(v as i32),
                IntTy::I64 => ConstValue::I64(v as i64),
                IntTy::I128 => ConstValue::I128(v),
                _ => ConstValue::Isize(v as isize),
            }
        } else {
            let v = self.bits;
            match self.ty {
                IntTy::U8 => ConstValue::U8(v as u8),
                IntTy::U16 => ConstValue::U16(v as u16),
                IntTy::U32 => ConstValue::U32(v as u32),
                IntTy::U64 => ConstValue::U64(v as u64),
                IntTy::U128 => ConstValue::U128(v),
                _ => ConstValue::Usize(v as usize),
            }
        }
    }

    /// Whether the number is smaller than another one of its type.
    pub fn less_than(self, b: IntBits) -> (r: bool)
        requires
            self.wf(),
            b.wf(),
            self.ty == b.ty,
        ensures
            r == (self.value() < b.value()),
    {
        proof {
            lemma_widths(self.ty);
        }
        let na = self.is_negative();
        let nb = b.is_negative();
        if na == nb {
            self.bits < b.bits
        } else {
            na
        }
    }

    fn plus(self, b: IntBits) -> (r: IntBits)
        requires
            self.wf(),
            b.wf(),
            self.ty == b.ty,
        ensures
            r.ty == self.ty,
            r.wf(),
            r.value() == self.ty.wrap(self.value() + b.value()),
    {
        proof {
            let m = self.ty.modulus();
            lemma_value(self);
            lemma_value(b);
            lemma_widths(self.ty);
            let x = self.bits as int + b.bits as int;
            lemma_residue(self.ty, x);
            lemma_add_mod_noop(self.value(), b.value(), m);
            lemma_add_mod_noop(self.bits as int, b.bits as int, m);
            lemma_wrapped_sum(self.bits, b.bits);
            lemma_mod_twice(self.value(), m);
            lemma_mod_twice(b.value(), m);
        }
        self.ty.truncate(self.bits.wrapping_add(b.bits))
    }

    fn complement(self) -> (r: IntBits)
        requires
            self.wf(),
        ensures
            r.ty == self.ty,
            r.wf(),
            r.value() == self.ty.wrap(-1 - self.value()),
    {
        proof {
            lemma_widths(self.ty);
            let m = self.ty.modulus();
            let q: int = if self.value() < 0 {
                0
            } else {
                -1
            };
            assert(-1 - self.value() == m * q + (m - 1 - self.bits)) by (nonlinear_arith)
                requires
                    q == 0 ==> self.value() == self.bits - m,
                    q == -1 ==> self.value() == self.bits,
                    q == 0 || q == -1,
            ;
            lemma_fundamental_div_mod_converse(-1 - self.value(), m, q, m - 1 - self.bits);
        }
        IntBits { ty: self.ty, bits: self.ty.max_bits() - self.bits }
    }

    fn negated(self) -> (r: IntBits)
        requires
            self.wf(),
        ensures
            r.ty == self.ty,
            r.wf(),
            r.value() == self.ty.wrap(-self.value()),
    {
        let c = self.complement();
        let one = IntBits { ty: self.ty, bits: 1 };
        proof {
            let m = self.ty.modulus();
            lemma_widths(self.ty);
            lemma_value(one);
            lemma_wrap_residue(self.ty, -1 - self.value());
            lemma_add_mod_noop(c.value(), one.value(), m);
            lemma_add_mod_noop(-1 - self.value(), one.value(), m);
            assert(-1 - self.value() + 1 == -self.value());
        }
        c.plus(one)
    }

    fn minus(self, b: IntBits) -> (r: IntBits)
        requires
            self.wf(),
            b.wf(),
            self.ty == b.ty,
        ensures
            r.ty == self.ty,
            r.wf(),
            r.value() == self.ty.wrap(self.value() - b.value()),
    {
        let n = b.negated();
        proof {
            let m = self.ty.modulus();
            lemma_widths(self.ty);
            lemma_value(n);
            lemma_value(self);
            lemma_wrap_residue(self.ty, -b.value());
            lemma_add_mod_noop(self.value(), n.value(), m);
            lemma_add_mod_noop(self.value(), -b.value(), m);
            assert(self.value() + (-b.value()) == self.value() - b.value());
        }
        self.plus(n)
    }

    fn times(self, b: u128) -> (r: IntBits)
        requires
            self.wf(),
        ensures
            r.ty == self.ty,
            r.wf(),
            r.value() == self.ty.wrap(self.value() * b),
    {
        proof {
            let m = self.ty.modulus();
            lemma_widths(self.ty);
            lemma_value(self);
            let x = self.bits as int * b as int;
            lemma_residue(self.ty, x);
            lemma_mul_mod_noop_left(self.value(), b as int, m);
            lemma_mul_nonnegative(self.bits as int, b as int);
        }
        self.ty.truncate(self.bits.wrapping_mul(b))
    }

    fn mul_bits(self, b: IntBits) -> (r: IntBits)
        requires
            self.wf(),
            b.wf(),
            self.ty == b.ty,
        ensures
            r.ty == self.ty,
            r.wf(),
            r.value() == self.ty.wrap(self.value() * b.value()),
    {
        proof {
            let m = self.ty.modulus();
            lemma_widths(self.ty);
            lemma_value(b);
            lemma_mul_mod_noop_right(self.value(), b.value(), m);
            lemma_mul_mod_noop_right(self.value(), b.bits as int, m);
            lemma_small_mod(b.bits as nat, m as nat);
        }
        self.times(b.bits)
    }

    /// Distance from zero.
    pub fn magnitude(self) -> (r: u128)
        requires
            self.wf(),
        ensures
            r == abs(self.value()),
    {
        proof {
            lemma_widths(self.ty);
        }
        if self.is_negative() {
            (self.ty.max_bits() - self.bits) + 1
        } else {
            self.bits
        }
    }

    /// The number extended to 128 bits, sign included.
    pub fn extended(self) -> (r: u128)
        requires
            self.wf(),
        ensures
            r == self.value() % (u128::MAX + 1),
    {
        proof {
            lemma_widths(self.ty);
            let m: int = u128::MAX + 1;
            if self.value() < 0 {
                lemma_fundamental_div_mod_converse(self.value(), m, -1, self.value() + m);
            } else {
                lemma_fundamental_div_mod_converse(self.value(), m, 0, self.value());
            }
        }
        if self.is_negative() {
            u128::MAX - (self.magnitude() - 1)
        } else {
            self.bits
        }
    }

    /// The number with this distance from zero and sign, if the type holds it.
    pub fn from_magnitude(ty: IntTy, mag: u128, negative: bool) -> (r: Option<IntBits>)
        ensures
            r is Some <==> ty.holds(
                if negative {
                    -(mag as int)
                } else {
                    mag as int
                },
            ),
            r is Some ==> r->0.ty == ty && r->0.wf() && r->0.value() == if negative {
                -(mag as int)
            } else {
                mag as int
            },
    {
        proof {
            lemma_widths(ty);
        }
        let max = ty.max_bits();
        if mag == 0 {
            Some(IntBits { ty, bits: 0 })
        } else if negative {
            if ty.signed() && mag - 1 <= max / 2 {
                Some(IntBits { ty, bits: max - (mag - 1) })
            } else {
                None
            }
        } else {
            let top = if ty.signed() {
                max / 2
            } else {
                max
            };
            if mag <= top {
                Some(IntBits { ty, bits: mag })
            } else {
                None
            }
        }
    }

    fn divided(self, b: IntBits) -> (r: Option<IntBits>)
        requires
            self.wf(),
            b.wf(),
            self.ty == b.ty,
        ensures
            r is Some <==> int_result(IntOp::Div, self.ty, self.value(), b.value()) is Some,
            r is Some ==> r->0.ty == self.ty && r->0.wf() && Some(r->0.value()) == int_result(
                IntOp::Div,
                self.ty,
                self.value(),
                b.value(),
            ),
    {
        let ma = self.magnitude();
        let mb = b.magnitude();
        if mb == 0 {
            return None;
        }
        IntBits::from_magnitude(self.ty, ma / mb, self.is_negative() != b.is_negative())
    }

    fn modulo(self, b: IntBits) -> (r: Option<IntBits>)
        requires
            self.wf(),
            b.wf(),
            self.ty == b.ty,
        ensures
            r is Some <==> int_result(IntOp::Mod, self.ty, self.value(), b.value()) is Some,
            r is Some ==> r->0.ty == self.ty && r->0.wf() && Some(r->0.value()) == int_result(
                IntOp::Mod,
                self.ty,
                self.value(),
                b.value(),
            ),
    {
        let ma = self.magnitude();
        let mb = b.magnitude();
        if mb == 0 {
            return None;
        }
        let q = IntBits::from_magnitude(
            self.ty,
            ma / mb,
            self.is_negative() != b.is_negative(),
        );
        if q.is_none() {
            return None;
        }
        proof {
            lemma_value(self);
            lemma_value(b);
            lemma_widths(self.ty);
            lemma_mod_bound(ma as int, mb as int);
            lemma_mod_decreases(ma as nat, mb as nat);
        }
        IntBits::from_magnitude(self.ty, ma % mb, self.is_negative())
    }

    fn shifted_left(self, amount: i32) -> (r: Option<IntBits>)
        requires
            self.wf(),
        ensures
            r is Some <==> int_result(IntOp::Shl, self.ty, self.value(), amount as int) is Some,
            r is Some ==> r->0.ty == self.ty && r->0.wf() && Some(r->0.value()) == int_result(
                IntOp::Shl,
                self.ty,
                self.value(),
                amount as int,
            ),
    {
        if amount < 0 || amount as u32 >= self.ty.bits() {
            return None;
        }
        Some(self.times(power_of_two_at(amount as u32)))
    }

    fn shifted_right(self, amount: i32) -> (r: Option<IntBits>)
        requires
            self.wf(),
        ensures
            r is Some <==> int_result(IntOp::Shr, self.ty, self.value(), amount as int) is Some,
            r is Some ==> r->0.ty == self.ty && r->0.wf() && Some(r->0.value()) == int_result(
                IntOp::Shr,
                self.ty,
                self.value(),
                amount as int,
            ),
    {
        if amount < 0 || amount as u32 >= self.ty.bits() {
            return None;
        }
        let p = power_of_two_at(amount as u32);
        proof {
            lemma_widths(self.ty);
            lemma_pow2_pos(amount as nat);
        }
        if self.is_negative() {
            let w = self.ty.max_bits() - self.bits;
            proof {
                lemma_floor_of_negative(w as int, p as int);
                lemma_div_decreases_or_same(w as int, p as int);
            }
            Some(IntBits { ty: self.ty, bits: self.ty.max_bits() - w / p })
        } else {
            proof {
                lemma_div_decreases_or_same(self.bits as int, p as int);
            }
            Some(IntBits { ty: self.ty, bits: self.bits / p })
        }
    }

    fn and_bits(self, b: IntBits) -> (r: IntBits)
        requires
            self.wf(),
            b.wf(),
            self.ty == b.ty,
        ensures
            r.ty == self.ty,
            r.wf(),
            r.bits == self.bits & b.bits,
    {
        let x = self.bits;
        let y = b.bits;
        assert((x & y) <= x) by (bit_vector);
        IntBits { ty: self.ty, bits: x & y }
    }

    fn or_bits(self, b: IntBits) -> (r: IntBits)
        requires
            self.wf(),
            b.wf(),
            self.ty == b.ty,
        ensures
            r.ty == self.ty,
            r.wf(),
            r.bits == self.bits | b.bits,
    {
        proof {
            lemma_or_stays(self.ty, self.bits, b.bits);
        }
        IntBits { ty: self.ty, bits: self.bits | b.bits }
    }

    fn xor_bits(self, b: IntBits) -> (r: IntBits)
        requires
            self.wf(),
            b.wf(),
            self.ty == b.ty,
        ensures
            r.ty == self.ty,
            r.wf(),
            r.bits == self.bits ^ b.bits,
    {
        let x = self.bits;
        let y = b.bits;
        proof {
            lemma_or_stays(self.ty, self.bits, b.bits);
            assert((x ^ y) <= (x | y)) by (bit_vector);
        }
        IntBits { ty: self.ty, bits: x ^ y }
    }
}

/// The machine type of an integer type holds the number.
pub open spec fn fits_machine(ty: IntTy, v: int) -> bool {
    match ty {
        IntTy::I8 => i8::MIN <= v <= i8::MAX,
        IntTy::I16 => i16::MIN <= v <= i16::MAX,
        IntTy::I32 => i32::MIN <= v <= i32::MAX,
        IntTy::I64 => i64::MIN <= v <= i64::MAX,
        IntTy::I128 => i128::MIN <= v <= i128::MAX,
        IntTy::U8 => 0 <= v <= u8::MAX,
        IntTy::U16 => 0 <= v <= u16::MAX,
        IntTy::U32 => 0 <= v <= u32::MAX,
        IntTy::U64 => 0 <= v <= u64::MAX,
        IntTy::U128 => 0 <= v <= u128::MAX,
        IntTy::Isize => isize::MIN <= v <= isize::MAX,
        IntTy::Usize => 0 <= v <= usize::MAX,
    }
}

proof fn lemma_wrapped_sum(a: u128, b: u128)
    ensures
        a.wrapping_add(b) == (a as int + b as int)
            % (u128::MAX + 1),
{
    let x = a as int + b as int;
    let m: int = u128::MAX + 1;
    if x >= m {
        lemma_fundamental_div_mod_converse(x, m, 1, x - m);
    } else {
        lemma_fundamental_div_mod_converse(x, m, 0, x);
    }
}

proof fn lemma_wrap_residue(ty: IntTy, x: int)
    ensures
        ty.wrap(x) % ty.modulus() == x % ty.modulus(),
        ty.holds(ty.wrap(x)),
{
    lemma_widths(ty);
    let m = ty.modulus();
    let r = x % m;
    lemma_mod_bound(x, m);
    lemma_mod_twice(x, m);
    if ty.is_signed() && r >= m / 2 {
        lemma_mod_sub_multiples_vanish(r, m);
        assert(r - m == -m + r);
    }
}

proof fn lemma_floor_of_negative(w: int, p: int)
    requires
        w >= 0,
        p > 0,
    ensures
        (-1 - w) / p == -1 - w / p,
{
    let q = w / p;
    let r = w % p;
    lemma_fundamental_div_mod(w, p);
    lemma_mod_bound(w, p);
    assert(-1 - w == p * (-1 - q) + (p - 1 - r)) by (nonlinear_arith)
        requires
            w == p * q + r,
    ;
    lemma_fundamental_div_mod_converse(-1 - w, p, -1 - q, p - 1 - r);
}

proof fn lemma_div_decreases_or_same(x: int, p: int)
    requires
        x >= 0,
        p > 0,
    ensures
        0 <= x / p <= x,
{
    lemma_div_nonincreasing(x, p);
    lemma_div_pos_is_pos(x, p);
}

proof fn lemma_or_stays(ty: IntTy, x: u128, y: u128)
    requires
        x < ty.modulus(),
        y < ty.modulus(),
    ensures
        (x | y) < ty.modulus(),
{
    lemma_widths(ty);
    assert(x <= 0xff && y <= 0xff ==> (x | y) <= 0xff) by (bit_vector);
    assert(x <= 0xffff && y <= 0xffff ==> (x | y) <= 0xffff) by (bit_vector);
    assert(x <= 0xffff_ffff && y <= 0xffff_ffff ==> (x | y) <= 0xffff_ffff) by (bit_vector);
    assert(x <= 0xffff_ffff_ffff_ffff && y <= 0xffff_ffff_ffff_ffff ==> (x | y)
        <= 0xffff_ffff_ffff_ffff) by (bit_vector);
    assert(usize::MAX == 0xffff_ffff || usize::MAX == 0xffff_ffff_ffff_ffff);
}

/// 2 to the power of `n`.
pub fn power_of_two_at(n: u32) -> (r: u128)
    requires
        n < 128,
    ensures
        r == pow2(n as nat),
{
    let mut r: u128 = 1;
    let mut i: u32 = 0;
    proof {
        lemma2_to64();
        lemma_widths(IntTy::U128);
    }
    while i < n
        invariant
            i <= n < 128,
            r == pow2(i as nat),
            pow2(128) == (u128::MAX + 1),
        decreases n - i,
    {
        proof {
            lemma_pow2_unfold((i + 1) as nat);
            if i + 1 < 128 {
                lemma_pow2_strictly_increases((i + 1) as nat, 128);
            }
        }
        r = r * 2;
        i = i + 1;
    }
    r
}

/// Applies an operation to two integers of one type; a shift takes its amount
/// apart from that.
pub fn apply_int(op: IntOp, a: IntBits, b: IntBits, amount: i32) -> (r: Option<IntBits>)
    requires
        a.wf(),
        b.wf(),
        a.ty == b.ty,
    ensures
        ({
            let second = if op == IntOp::Shl || op == IntOp::Shr {
                amount as int
            } else {
                b.value()
            };
            let spec = int_result(op, a.ty, a.value(), second);
            &&& r is Some <==> spec is Some
            &&& r is Some ==> r->0.ty == a.ty && r->0.wf() && spec == Some(r->0.value())
        }),
{
    proof {
        lemma_value(a);
        lemma_value(b);
        lemma_widths(a.ty);
        if op == IntOp::BitOr || op == IntOp::BitXor {
            lemma_or_stays(a.ty, a.bits, b.bits);
        }
    }
    match op {
        IntOp::Add => Some(a.plus(b)),
        IntOp::Sub => Some(a.minus(b)),
        IntOp::Mul => Some(a.mul_bits(b)),
        IntOp::Div => a.divided(b),
        IntOp::Mod => a.modulo(b),
        IntOp::BitAnd => {
            let r = a.and_bits(b);
            proof {
                lemma_small_mod(r.bits as nat, a.ty.modulus() as nat);
            }
            Some(r)
        },
        IntOp::BitOr => {
            let r = a.or_bits(b);
            proof {
                lemma_small_mod(r.bits as nat, a.ty.modulus() as nat);
            }
            Some(r)
        },
        IntOp::BitXor => {
            let r = a.xor_bits(b);
            proof {
                lemma_small_mod(r.bits as nat, a.ty.modulus() as nat);
            }
            Some(r)
        },
        IntOp::Shl => a.shifted_left(amount),
        IntOp::Shr => a.shifted_right(amount),
        IntOp::Neg => Some(a.negated()),
        IntOp::BitNot => Some(a.complement()),
    }
}

// ---- laws ------------------------------------------------------------------

/// Type and value of a constant determine it.
pub proof fn law_const_round_trip(cv: ConstValue)
    requires
        int_of(cv) is Some,
    ensures
        const_of((int_of(cv)->0).0, (int_of(cv)->0).1) == cv,
        (int_of(cv)->0).0.holds((int_of(cv)->0).1),
{
    lemma_widths((int_of(cv)->0).0);
}

/// Multiplying by 2^n is shifting left by n, in every integer type.
pub proof fn law_mul_by_power_is_shl(ty: IntTy, a: int, n: nat)
    requires
        n < ty.width(),
    ensures
        int_result(IntOp::Mul, ty, a, pow2(n) as int) == int_result(IntOp::Shl, ty, a, n as int),
{
}

/// Dividing a number of an unsigned type by 2^n is shifting it right by n.
pub proof fn law_unsigned_div_by_power_is_shr(ty: IntTy, a: int, n: nat)
    requires
        !ty.is_signed(),
        ty.holds(a),
        n < ty.width(),
    ensures
        int_result(IntOp::Div, ty, a, pow2(n) as int) == int_result(IntOp::Shr, ty, a, n as int),
{
    lemma_pow2_pos(n);
    lemma_div_decreases_or_same(a, pow2(n) as int);
}

/// The remainder of a number of an unsigned type by 2^n is its low n bits.
pub proof fn law_unsigned_rem_by_power_is_mask(ty: IntTy, a: int, n: nat)
    requires
        !ty.is_signed(),
        ty.holds(a),
        n < ty.width(),
    ensures
        int_result(IntOp::Mod, ty, a, pow2(n) as int) == int_result(
            IntOp::BitAnd,
            ty,
            a,
            pow2(n) - 1,
        ),
{
    lemma_widths(ty);
    lemma_pow2_pos(n);
    lemma_pow2_strictly_increases(n, ty.width());
    let m = ty.modulus();
    let p = pow2(n) as int;
    lemma_small_mod(a as nat, m as nat);
    lemma_small_mod((p - 1) as nat, m as nat);
    lemma_div_decreases_or_same(a, p);
    lemma_mask_is_mod(a as u128, n);
    lemma_mod_bound(a, p);
    lemma_small_mod((a % p) as nat, m as nat);
}

proof fn lemma_mask_is_mod(a: u128, n: nat)
    requires
        n < 128,
    ensures
        (a & ((pow2(n) - 1) as u128)) == a as int % (pow2(n) as int),
    decreases n,
{
    lemma_widths(IntTy::U128);
    lemma_pow2_pos(n);
    lemma_pow2_strictly_increases(n, 128);
    let p = pow2(n) as int;
    if n == 0 {
        lemma2_to64();
        assert(a & 0 == 0) by (bit_vector);
    } else {
        lemma_pow2_unfold(n);
        lemma_pow2_pos((n - 1) as nat);
        let h = pow2((n - 1) as nat) as int;
        let half = (h - 1) as u128;
        let b = a / 2;
        lemma_mask_is_mod(b, (n - 1) as nat);
        let full = (p - 1) as u128;
        assert(full == 2 * half + 1);
        assert((a & full) == 2 * ((a / 2) & half) + a % 2) by (bit_vector)
            requires
                full == 2 * half + 1,
                half < 0x8000_0000_0000_0000_0000_0000_0000_0000,
        ;
        // a == 2 * b + a % 2, so a % (2 * h) == 2 * (b % h) + a % 2.
        let q = b as int / h;
        let r = b as int % h;
        lemma_fundamental_div_mod(b as int, h);
        lemma_mod_bound(b as int, h);
        assert(a as int == p * q + (2 * r + a as int % 2)) by (nonlinear_arith)
            requires
                b as int == h * q + r,
                p == 2 * h,
                a as int == 2 * (b as int) + a as int % 2,
        ;
        lemma_fundamental_div_mod_converse(a as int, p, q, 2 * r + a as int % 2);
    }
}

proof fn lemma_wrap_is_congruent(ty: IntTy, x: int)
    ensures
        ty.holds(ty.wrap(x)),
        (ty.wrap(x) - x) % ty.modulus() == 0,
{
    lemma_widths(ty);
    let m = ty.modulus();
    lemma_fundamental_div_mod(x, m);
    lemma_mod_bound(x, m);
    let q = x / m;
    let r = x % m;
    if ty.is_signed() && r >= m / 2 {
        assert(ty.wrap(x) - x == (-q - 1) * m) by (nonlinear_arith)
            requires
                x == m * q + r,
                ty.wrap(x) == r - m,
        ;
        lemma_mod_multiples_basic(-q - 1, m);
    } else {
        assert(ty.wrap(x) - x == (-q) * m) by (nonlinear_arith)
            requires
                x == m * q + r,
                ty.wrap(x) == r,
        ;
        lemma_mod_multiples_basic(-q, m);
    }
}

/// Sums, differences, products and negatives are numbers of the type that differ
/// from the exact result by a multiple of the number of the type's values.
pub proof fn law_arithmetic_is_exact_up_to_wrapping(ty: IntTy, a: int, b: int)
    ensures
        int_result(IntOp::Add, ty, a, b) matches Some(r) && ty.holds(r) && (r - (a + b)) % ty.modulus() == 0,
        int_result(IntOp::Sub, ty, a, b) matches Some(r) && ty.holds(r) && (r - (a - b)) % ty.modulus() == 0,
        int_result(IntOp::Mul, ty, a, b) matches Some(r) && ty.holds(r) && (r - (a * b)) % ty.modulus() == 0,
        int_result(IntOp::Neg, ty, a, b) matches Some(r) && ty.holds(r) && (r + a) % ty.modulus() == 0,
{
    lemma_wrap_is_congruent(ty, a + b);
    lemma_wrap_is_congruent(ty, a - b);
    lemma_wrap_is_congruent(ty, a * b);
    lemma_wrap_is_congruent(ty, -a);
}

/// Quotient and remainder belong together: the quotient times the divisor and
/// the remainder make up the dividend, the remainder is smaller than the
/// divisor and has the sign of the dividend. There are none for the divisor
/// zero.
pub proof fn law_division_with_remainder(ty: IntTy, a: int, b: int)
    ensures
        b == 0 ==> int_result(IntOp::Div, ty, a, b) is None && int_result(IntOp::Mod, ty, a, b) is None,
        int_result(IntOp::Div, ty, a, b) is Some <==> int_result(IntOp::Mod, ty, a, b) is Some,
        int_result(IntOp::Div, ty, a, b) matches Some(q) ==> {
            let r = int_result(IntOp::Mod, ty, a, b)->0;
            &&& q * b + r == a
            &&& -abs(b) < r < abs(b)
            &&& a >= 0 ==> r >= 0
            &&& a <= 0 ==> r <= 0
        },
{
    if b != 0 {
        let x = abs(a);
        let y = abs(b);
        lemma_fundamental_div_mod(x, y);
        lemma_mod_bound(x, y);
        let q = x / y;
        let r = x % y;
        assert(quotient(a, b) * b + remainder(a, b) == a) by (nonlinear_arith)
            requires
                x == y * q + r,
                x == a || x == -a,
                y == b || y == -b,
                x >= 0,
                y > 0,
                (a < 0) == (x != a),
                (b < 0) == (y != b),
                quotient(a, b) == (if (a < 0) == (b < 0) {
                    q
                } else {
                    -q
                }),
                remainder(a, b) == (if a < 0 {
                    -r
                } else {
                    r
                }),
        ;
    }
}

/// Shifting right gives the largest number that, multiplied by the power of
/// two, does not exceed what is shifted; shifting left multiplies by the power
/// up to wrapping. There is no result for an amount outside the width.
pub proof fn law_shifts_scale_by_powers(ty: IntTy, a: int, n: int)
    ensures
        int_result(IntOp::Shr, ty, a, n) is Some <==> 0 <= n < ty.width(),
        int_result(IntOp::Shl, ty, a, n) is Some <==> 0 <= n < ty.width(),
        int_result(IntOp::Shr, ty, a, n) matches Some(r) ==> r * pow2(n as nat) <= a < (r + 1) * pow2(n as nat),
        int_result(IntOp::Shl, ty, a, n) matches Some(r) ==> ty.holds(r) && (r - a * pow2(n as nat)) % ty.modulus()
            == 0,
{
    if 0 <= n < ty.width() {
        let p = pow2(n as nat) as int;
        lemma_pow2_pos(n as nat);
        lemma_fundamental_div_mod(a, p);
        lemma_mod_bound(a, p);
        let q = a / p;
        assert(q * p <= a < (q + 1) * p) by (nonlinear_arith)
            requires
                a == p * q + a % p,
                0 <= a % p < p,
        ;
        lemma_wrap_is_congruent(ty, a * p);
    }
}

/// Of the bits of two numbers, the common ones are among those of each, those
/// of either hold those of each, and those of exactly one are the rest; and a
/// number and its complement make up minus one.
pub proof fn law_bit_operations(ty: IntTy, a: int, b: int)
    ensures
        int_result(IntOp::BitAnd, ty, a, b) is Some,
        int_result(IntOp::BitOr, ty, a, b) is Some,
        int_result(IntOp::BitXor, ty, a, b) is Some,
        int_result(IntOp::BitNot, ty, a, b) is Some,
        ({
            let x = bits_of(ty, a);
            let y = bits_of(ty, b);
            let and = bits_of(ty, int_result(IntOp::BitAnd, ty, a, b)->0);
            let or = bits_of(ty, int_result(IntOp::BitOr, ty, a, b)->0);
            let xor = bits_of(ty, int_result(IntOp::BitXor, ty, a, b)->0);
            &&& and <= x && and <= y
            &&& or >= x && or >= y
            &&& and + or == x + y
            &&& xor == or - and
        }),
        (int_result(IntOp::BitNot, ty, a, b)->0 + a + 1) % ty.modulus() == 0,
{
    lemma_widths(ty);
    let m = ty.modulus();
    lemma_mod_bound(a, m);
    lemma_mod_bound(b, m);
    let x = bits_of(ty, a);
    let y = bits_of(ty, b);
    lemma_or_stays(ty, x, y);
    assert((x & y) <= x && (x & y) <= y && (x | y) >= x && (x | y) >= y && (x ^ y) == (x | y) - (x & y)) by (bit_vector);
    assert((x & y) + (x | y) == x + y) by (bit_vector);
    lemma_bits_of_wrapped(ty, x & y);
    lemma_bits_of_wrapped(ty, x | y);
    lemma_bits_of_wrapped(ty, x ^ y);
    lemma_wrap_is_congruent(ty, -1 - a);
}

proof fn lemma_bits_of_wrapped(ty: IntTy, v: u128)
    requires
        v < ty.modulus(),
    ensures
        bits_of(ty, ty.wrap(v as int)) == v,
{
    lemma_widths(ty);
    let m = ty.modulus();
    lemma_small_mod(v as nat, m as nat);
    let w = ty.wrap(v as int);
    if w != v as int {
        assert(w == v - m);
        lemma_fundamental_div_mod_converse(w, m, -1, v as int);
    }
}

/// A number that the type holds is not wrapped.
pub proof fn lemma_wrap_of_held(ty: IntTy, x: int)
    requires
        ty.holds(x),
    ensures
        ty.wrap(x) == x,
{
    lemma_widths(ty);
    let m = ty.modulus();
    if x >= 0 {
        lemma_fundamental_div_mod_converse(x, m, 0, x);
    } else {
        lemma_fundamental_div_mod_converse(x, m, -1, x + m);
    }
}

} // verus!
