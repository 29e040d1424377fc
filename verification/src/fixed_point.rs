//! Signed 16.16 fixed-point numbers, modelled by their raw tick count.

use vstd::prelude::*;
use fixed::types::I16F16;

verus! {

/// Number of ticks in one unit.
pub const TICKS_PER_UNIT: i32 = 65536;

/// A signed 16.16 fixed-point number, held as its raw 32-bit pattern.
/// One tick is the smallest positive step the type can represent.
#[derive(Clone, Copy, Debug, PartialEq, Eq, Structural, PartialOrd, Ord, Hash)]
pub struct FixedPoint {
    pub bits: i32,
}

impl View for FixedPoint {
    type V = int;

    open spec fn view(&self) -> int {
        self.bits as int
    }
}

/// Quotient of `n` by `d` rounded towards zero.
pub open spec fn trunc_div(n: int, d: int) -> int {
    if d == 0 {
        0
    } else if n >= 0 && d > 0 {
        n / d
    } else if n >= 0 && d < 0 {
        -(n / (-d))
    } else if n < 0 && d > 0 {
        -((-n) / d)
    } else {
        (-n) / (-d)
    }
}

/// Whether `v` fits the 32-bit pattern of a fixed-point number.
pub open spec fn fits(v: int) -> bool {
    i32::MIN <= v <= i32::MAX
}

/// The product of two tick counts as a tick count: the exact product
/// divided by 65536 and rounded towards minus infinity, when it fits.
pub open spec fn mul_ticks(a: int, b: int) -> Option<int> {
    let q = (a * b) / 65536;
    if fits(q) {
        Some(q)
    } else {
        None
    }
}

/// The quotient of two tick counts as a tick count: the dividend scaled by
/// 65536, divided and rounded towards zero, when defined and when it fits.
pub open spec fn div_ticks(a: int, b: int) -> Option<int> {
    let q = trunc_div(a * 65536, b);
    if b != 0 && fits(q) {
        Some(q)
    } else {
        None
    }
}

/// Whether `r` is the square root of `a` rounded down to a whole tick.
pub open spec fn is_sqrt_ticks(a: int, r: int) -> bool {
    r >= 0 && r * r <= a * 65536 < (r + 1) * (r + 1)
}

/// `I16F16::checked_mul` on raw bit patterns: the product rounded down to
/// a whole tick, or `None` when it leaves the representable range.
#[verifier::external_body]
fn raw_checked_mul(a: i32, b: i32) -> (r: Option<i32>)
    ensures
        match r {
            Some(v) => mul_ticks(a as int, b as int) == Some(v as int),
            None => mul_ticks(a as int, b as int).is_none(),
        },
{
    match I16F16::from_bits(a).checked_mul(I16F16::from_bits(b)) {
        Some(v) => Some(v.to_bits()),
        None => None,
    }
}

/// `I16F16::checked_div` on raw bit patterns: the quotient rounded towards
/// zero, or `None` for a zero divisor or a quotient out of range.
#[verifier::external_body]
fn raw_checked_div(a: i32, b: i32) -> (r: Option<i32>)
    ensures
        match r {
            Some(v) => div_ticks(a as int, b as int) == Some(v as int),
            None => div_ticks(a as int, b as int).is_none(),
        },
{
    match I16F16::from_bits(a).checked_div(I16F16::from_bits(b)) {
        Some(v) => Some(v.to_bits()),
        None => None,
    }
}

/// `I16F16::checked_sqrt` on a raw bit pattern: the square root rounded
/// down to a whole tick, or `None` for a negative argument.
#[verifier::external_body]
fn raw_checked_sqrt(a: i32) -> (r: Option<i32>)
    ensures
        match r {
            Some(v) => a >= 0 && is_sqrt_ticks(a as int, v as int),
            None => a < 0,
        },
{
    match I16F16::from_bits(a).checked_sqrt() {
        Some(v) => Some(v.to_bits()),
        None => None,
    }
}

impl FixedPoint {
    pub fn from_bits(bits: i32) -> (r: FixedPoint)
        ensures
            r@ == bits,
    {
        FixedPoint { bits }
    }

    pub fn to_bits(&self) -> (r: i32)
        ensures
            r == self@,
    {
        self.bits
    }

    /// The value zero.
    pub fn zero() -> (r: FixedPoint)
        ensures
            r@ == 0,
    {
        FixedPoint { bits: 0 }
    }

    /// One tick, the smallest positive value.
    pub fn delta() -> (r: FixedPoint)
        ensures
            r@ == 1,
    {
        FixedPoint { bits: 1 }
    }

    /// The value one.
    pub fn one() -> (r: FixedPoint)
        ensures
            r@ == 65536,
    {
        FixedPoint { bits: 65536 }
    }

    /// The whole number `n` as a fixed-point value, when it is within
    /// the 16 integer bits.
    pub fn from_int(n: i32) -> (r: Option<FixedPoint>)
        ensures
            r.is_some() <==> -32768 <= n <= 32767,
            r.is_some() ==> r.unwrap()@ == n * 65536,
    {
        if -32768 <= n && n <= 32767 {
            Some(FixedPoint { bits: n * 65536 })
        } else {
            None
        }
    }

    /// Product rounded down to a whole tick; `None` when out of range.
    pub fn checked_mul(self, rhs: FixedPoint) -> (r: Option<FixedPoint>)
        ensures
            match r {
                Some(v) => mul_ticks(self@, rhs@) == Some(v@),
                None => mul_ticks(self@, rhs@).is_none(),
            },
    {
        match raw_checked_mul(self.bits, rhs.bits) {
            Some(v) => Some(FixedPoint { bits: v }),
            None => None,
        }
    }

    /// Quotient rounded towards zero; `None` for a zero divisor or when
    /// out of range.
    pub fn checked_div(self, rhs: FixedPoint) -> (r: Option<FixedPoint>)
        ensures
            match r {
                Some(v) => div_ticks(self@, rhs@) == Some(v@),
                None => div_ticks(self@, rhs@).is_none(),
            },
    {
        match raw_checked_div(self.bits, rhs.bits) {
            Some(v) => Some(FixedPoint { bits: v }),
            None => None,
        }
    }

    /// Square root rounded down to a whole tick; `None` for a negative
    /// value.
    pub fn checked_sqrt(self) -> (r: Option<FixedPoint>)
        ensures
            match r {
                Some(v) => self@ >= 0 && is_sqrt_ticks(self@, v@),
                None => self@ < 0,
            },
    {
        match raw_checked_sqrt(self.bits) {
            Some(v) => Some(FixedPoint { bits: v }),
            None => None,
        }
    }
}

} // verus!
