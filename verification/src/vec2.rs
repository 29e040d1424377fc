//! Two-dimensional vectors over fixed-point and whole-number coordinates.

use vstd::prelude::*;
use crate::fixed_point::{fits, FixedPoint};

verus! {

/// A point or displacement with fixed-point coordinates.
#[derive(Clone, Copy, Debug, PartialEq, Eq, Structural, PartialOrd, Ord, Hash)]
pub struct FixedVec2 {
    pub x: FixedPoint,
    pub y: FixedPoint,
}

impl View for FixedVec2 {
    type V = (int, int);

    open spec fn view(&self) -> (int, int) {
        (self.x@, self.y@)
    }
}

/// Whether a tick count is odd.
pub open spec fn is_odd(v: int) -> bool {
    v % 2 != 0
}

/// Whether both coordinates of a point are even tick counts.
pub open spec fn is_even_even(p: (int, int)) -> bool {
    !is_odd(p.0) && !is_odd(p.1)
}

/// `v` rounded down to an even tick count.
pub open spec fn round_down_even(v: int) -> int {
    v - v % 2
}

fn bits_odd(b: i32) -> (r: bool)
    ensures
        r == is_odd(b as int),
{
    b % 2 != 0
}

impl FixedVec2 {
    pub fn new(x: FixedPoint, y: FixedPoint) -> (r: FixedVec2)
        ensures
            r.x == x,
            r.y == y,
    {
        FixedVec2 { x, y }
    }

    /// A point given by the raw tick counts of its coordinates.
    pub fn from_bits(x: i32, y: i32) -> (r: FixedVec2)
        ensures
            r@ == (x as int, y as int),
    {
        FixedVec2 { x: FixedPoint { bits: x }, y: FixedPoint { bits: y } }
    }

    /// Whether both coordinates are odd tick counts.
    pub fn is_x_odd_y_odd(&self) -> (r: bool)
        ensures
            r == (is_odd(self.x@) && is_odd(self.y@)),
    {
        bits_odd(self.x.bits) && bits_odd(self.y.bits)
    }

    /// Whether the coordinates' tick counts add up to an even number.
    pub fn is_sum_even(&self) -> (r: bool)
        ensures
            r == !is_odd(self.x@ + self.y@),
    {
        bits_odd(self.x.bits) == bits_odd(self.y.bits)
    }

    /// Rounds each coordinate down by one tick if it is odd.
    pub fn to_nearest_even_even(&self) -> (r: FixedVec2)
        ensures
            r@ == (round_down_even(self.x@), round_down_even(self.y@)),
            is_even_even(r@),
    {
        let x = if bits_odd(self.x.bits) {
            self.x.bits - 1
        } else {
            self.x.bits
        };
        let y = if bits_odd(self.y.bits) {
            self.y.bits - 1
        } else {
            self.y.bits
        };
        FixedVec2::from_bits(x, y)
    }

    /// The Euclidean length rounded down to a whole tick, when the sum of
    /// the squared coordinates is representable.
    pub fn length(&self) -> (r: Option<FixedPoint>)
        ensures
            match r {
                Some(len) => exists|xx: int, yy: int|
                    crate::fixed_point::mul_ticks(self.x@, self.x@) == Some(xx)
                        && crate::fixed_point::mul_ticks(self.y@, self.y@) == Some(yy) && fits(
                        xx + yy,
                    ) && crate::fixed_point::is_sqrt_ticks(xx + yy, len@),
                None => match (
                    crate::fixed_point::mul_ticks(self.x@, self.x@),
                    crate::fixed_point::mul_ticks(self.y@, self.y@),
                ) {
                    (Some(xx), Some(yy)) => !fits(xx + yy),
                    _ => true,
                },
            },
    {
        let xx = match self.x.checked_mul(self.x) {
            Some(v) => v,
            None => {
                return None;
            },
        };
        let yy = match self.y.checked_mul(self.y) {
            Some(v) => v,
            None => {
                return None;
            },
        };
        assert(xx@ >= 0 && yy@ >= 0) by (nonlinear_arith)
            requires
                xx@ == (self.x@ * self.x@) / 65536,
                yy@ == (self.y@ * self.y@) / 65536,
        ;
        let sum: i64 = xx.bits as i64 + yy.bits as i64;
        if sum > i32::MAX as i64 {
            return None;
        }
        FixedPoint::from_bits(sum as i32).checked_sqrt()
    }

    /// Coordinate-wise sum.
    pub fn plus(self, other: FixedVec2) -> (r: FixedVec2)
        requires
            fits(self.x@ + other.x@),
            fits(self.y@ + other.y@),
        ensures
            r@ == (self.x@ + other.x@, self.y@ + other.y@),
    {
        FixedVec2::from_bits(self.x.bits + other.x.bits, self.y.bits + other.y.bits)
    }

    /// Coordinate-wise difference.
    pub fn minus(self, other: FixedVec2) -> (r: FixedVec2)
        requires
            fits(self.x@ - other.x@),
            fits(self.y@ - other.y@),
        ensures
            r@ == (self.x@ - other.x@, self.y@ - other.y@),
    {
        FixedVec2::from_bits(self.x.bits - other.x.bits, self.y.bits - other.y.bits)
    }

    /// The vector pointing the other way.
    pub fn negated(self) -> (r: FixedVec2)
        requires
            fits(-self.x@),
            fits(-self.y@),
        ensures
            r@ == (-self.x@, -self.y@),
    {
        FixedVec2::from_bits(-self.x.bits, -self.y.bits)
    }
}

/// A vector with whole-number coordinates.
#[derive(Clone, Copy, Debug, Default, PartialEq, Eq, Structural)]
pub struct IntVec2 {
    pub x: i32,
    pub y: i32,
}

impl IntVec2 {
    pub fn new(x: i32, y: i32) -> (r: IntVec2)
        ensures
            r.x == x,
            r.y == y,
    {
        IntVec2 { x, y }
    }

    /// The same vector in fixed-point coordinates, when both coordinates
    /// are within the 16 integer bits.
    pub fn to_fixed(&self) -> (r: Option<FixedVec2>)
        ensures
            r.is_some() <==> (-32768 <= self.x <= 32767 && -32768 <= self.y <= 32767),
            r.is_some() ==> r.unwrap()@ == (self.x * 65536, self.y * 65536),
    {
        match (FixedPoint::from_int(self.x), FixedPoint::from_int(self.y)) {
            (Some(x), Some(y)) => Some(FixedVec2 { x, y }),
            _ => None,
        }
    }
}

} // verus!
