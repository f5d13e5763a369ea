use vstd::prelude::*;

verus! {

// Fixed-point arithmetic of the XIM machine.
//
// i16 values are Q8.8 numbers (a value `x` stands for `x / 256`), i8 values are
// Q2.6 numbers (`x / 64`).  Every operation saturates instead of wrapping.
// Right shifts of signed values round towards negative infinity, which is what
// `/` on `int` does for a positive divisor.

/// Clamps an integer into the i16 range.
pub open spec fn clamp_i16(x: int) -> int {
    if x < -32768 {
        -32768
    } else if x > 32767 {
        32767
    } else {
        x
    }
}

/// Clamps an integer into the i8 range.
pub open spec fn clamp_i8(x: int) -> int {
    if x < -128 {
        -128
    } else if x > 127 {
        127
    } else {
        x
    }
}

/// The binary operations of the i16 machine.
#[derive(Debug, Clone, Copy, PartialEq, Eq, Structural)]
pub enum BinKind {
    /// Saturating addition.
    Add,
    /// Saturating subtraction.
    Sub,
    /// Q8.8 multiplication: the product shifted right by 8, saturated.
    Mul,
}

/// Saturating i16 addition.
pub open spec fn sat_add16(a: i16, b: i16) -> i16 {
    clamp_i16(a + b) as i16
}

/// Saturating i16 subtraction.
pub open spec fn sat_sub16(a: i16, b: i16) -> i16 {
    clamp_i16(a - b) as i16
}

/// Q8.8 product: `(a * b) >> 8`, saturated to i16.
pub open spec fn mul_q8(a: i16, b: i16) -> i16 {
    clamp_i16((a * b) / 256) as i16
}

/// The i16 binary operation `kind`.
pub open spec fn bin16(kind: BinKind, a: i16, b: i16) -> i16 {
    match kind {
        BinKind::Add => sat_add16(a, b),
        BinKind::Sub => sat_sub16(a, b),
        BinKind::Mul => mul_q8(a, b),
    }
}

/// Saturating i8 addition.
pub open spec fn sat_add8(a: i8, b: i8) -> i8 {
    clamp_i8(a + b) as i8
}

/// Q2.6 product: `(a * b) >> 6`, saturated to i8.
pub open spec fn mul_q6(a: i8, b: i8) -> i8 {
    clamp_i8((a * b) / 64) as i8
}

/// The i8 binary operation: Q2.6 product when `mul`, saturating sum otherwise.
pub open spec fn bin8(mul: bool, a: i8, b: i8) -> i8 {
    if mul {
        mul_q6(a, b)
    } else {
        sat_add8(a, b)
    }
}

/// A Q8.8 value narrowed to Q2.6: `x >> 2`, saturated to i8.
pub open spec fn narrow_q8(x: i16) -> i8 {
    clamp_i8(x / 4) as i8
}

/// A Q2.6 value widened to Q8.8: `x << 2`.
pub open spec fn widen_q6(x: i8) -> i16 {
    (x * 4) as i16
}

pub proof fn lemma_shr8_i32(x: i32)
    ensures
        (x >> 8u32) as int == (x as int) / 256,
{
    assert((x >> 8u32) as int == (x as int) / 256) by (bit_vector);
}

pub proof fn lemma_shr4_i32(x: i32)
    ensures
        (x >> 4u32) as int == (x as int) / 16,
{
    assert((x >> 4u32) as int == (x as int) / 16) by (bit_vector);
}

pub proof fn lemma_shr10_i32(x: i32)
    ensures
        (x >> 10u32) as int == (x as int) / 1024,
{
    assert((x >> 10u32) as int == (x as int) / 1024) by (bit_vector);
}

pub proof fn lemma_shr4_i16(x: i16)
    ensures
        (x >> 4u32) as int == (x as int) / 16,
{
    assert((x >> 4u32) as int == (x as int) / 16) by (bit_vector);
}

pub proof fn lemma_shr2_i16(x: i16)
    ensures
        (x >> 2u32) as int == (x as int) / 4,
{
    assert((x >> 2u32) as int == (x as int) / 4) by (bit_vector);
}

pub proof fn lemma_shr6_i16(x: i16)
    ensures
        (x >> 6u32) as int == (x as int) / 64,
{
    assert((x >> 6u32) as int == (x as int) / 64) by (bit_vector);
}

/// Clamps an i32 into the i16 range.
pub fn clamp16(x: i32) -> (r: i16)
    ensures
        r == clamp_i16(x as int),
{
    if x < -32768 {
        -32768
    } else if x > 32767 {
        32767
    } else {
        x as i16
    }
}

/// Clamps an i32 into the i8 range.
pub fn clamp8(x: i32) -> (r: i8)
    ensures
        r == clamp_i8(x as int),
{
    if x < -128 {
        -128
    } else if x > 127 {
        127
    } else {
        x as i8
    }
}

/// The i16 binary operation `kind`.
pub fn bin16_exec(kind: BinKind, a: i16, b: i16) -> (r: i16)
    ensures
        r == bin16(kind, a, b),
{
    match kind {
        BinKind::Add => clamp16(a as i32 + b as i32),
        BinKind::Sub => clamp16(a as i32 - b as i32),
        BinKind::Mul => {
            assert(-32768 * 32768 <= a * b <= 32768 * 32768) by (nonlinear_arith)
                requires -32768 <= a <= 32767, -32768 <= b <= 32767;
            let p: i32 = a as i32 * b as i32;
            proof {
                lemma_shr8_i32(p);
            }
            clamp16(p >> 8u32)
        },
    }
}

/// The i8 binary operation.
pub fn bin8_exec(mul: bool, a: i8, b: i8) -> (r: i8)
    ensures
        r == bin8(mul, a, b),
{
    if mul {
        assert(-128 * 128 <= a * b <= 128 * 128) by (nonlinear_arith)
            requires -128 <= a <= 127, -128 <= b <= 127;
        let p: i16 = a as i16 * b as i16;
        proof {
            lemma_shr6_i16(p);
        }
        clamp8((p >> 6u32) as i32)
    } else {
        clamp8(a as i32 + b as i32)
    }
}

/// Narrows a Q8.8 value to Q2.6.
pub fn narrow_q8_exec(x: i16) -> (r: i8)
    ensures
        r == narrow_q8(x),
{
    proof {
        lemma_shr2_i16(x);
    }
    clamp8((x >> 2u32) as i32)
}

/// Widens a Q2.6 value to Q8.8.
pub fn widen_q6_exec(x: i8) -> (r: i16)
    ensures
        r == widen_q6(x),
{
    x as i16 * 4
}

} // verus!
