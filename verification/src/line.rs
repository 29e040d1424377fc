//! Lines through a lattice point along a whole-number direction, and the
//! lattice points where two of them meet.

use vstd::prelude::*;
use crate::fixed_point::fits;
use crate::vec2::{FixedVec2, IntVec2};

verus! {

/// A line through `point` along `dir`.
#[derive(Clone, Copy, Debug)]
pub struct Line {
    pub point: FixedVec2,
    pub dir: IntVec2,
}

/// Cross product of the two directions; zero when they are parallel.
pub open spec fn cross(d: (int, int), e: (int, int)) -> int {
    d.1 * e.0 - d.0 * e.1
}

/// How far, in units of `cross`, the line through `p` along `d` runs
/// until it meets the line through `q` along `e`.
pub open spec fn reach(p: (int, int), q: (int, int), e: (int, int)) -> int {
    e.1 * (p.0 - q.0) - e.0 * (p.1 - q.1)
}

/// Whether `q` lies on the line through `p` along `d`.
pub open spec fn lies_on(q: (int, int), p: (int, int), d: (int, int)) -> bool {
    (q.0 - p.0) * d.1 == (q.1 - p.1) * d.0
}

/// The point where the line through `p` along `d` meets the line through
/// `q` along `e`, when the lines are not parallel and the point has whole
/// tick counts that fit a fixed-point number.
pub open spec fn meet(p: (int, int), d: (int, int), q: (int, int), e: (int, int)) -> Option<
    (int, int),
> {
    let c = cross(d, e);
    let r = reach(p, q, e);
    let den = if c < 0 { -c } else { c };
    let num = if c < 0 { -r } else { r };
    if c != 0 && (d.0 * num) % den == 0 && (d.1 * num) % den == 0 && fits(
        p.0 + (d.0 * num) / den,
    ) && fits(p.1 + (d.1 * num) / den) {
        Some((p.0 + (d.0 * num) / den, p.1 + (d.1 * num) / den))
    } else {
        None
    }
}

/// A meeting point lies on both lines.
pub proof fn lemma_meet_on_lines(p: (int, int), d: (int, int), q: (int, int), e: (int, int))
    requires
        meet(p, d, q, e).is_some(),
    ensures
        lies_on(meet(p, d, q, e).unwrap(), p, d),
        lies_on(meet(p, d, q, e).unwrap(), q, e),
{
    let c = cross(d, e);
    let r = reach(p, q, e);
    let den = if c < 0 { -c } else { c };
    let num = if c < 0 { -r } else { r };
    let tx = (d.0 * num) / den;
    let ty = (d.1 * num) / den;
    vstd::arithmetic::div_mod::lemma_fundamental_div_mod(d.0 * num, den);
    vstd::arithmetic::div_mod::lemma_fundamental_div_mod(d.1 * num, den);
    assert(den * tx == d.0 * num);
    assert(den * ty == d.1 * num);
    let m = meet(p, d, q, e).unwrap();
    assert(m == (p.0 + tx, p.1 + ty));
    assert(den * (tx * d.1 - ty * d.0) == 0) by (nonlinear_arith)
        requires
            den * tx == d.0 * num,
            den * ty == d.1 * num,
    ;
    assert(tx * d.1 - ty * d.0 == 0) by (nonlinear_arith)
        requires
            den * (tx * d.1 - ty * d.0) == 0,
            den > 0,
    ;
    let w = (p.0 + tx - q.0) * e.1 - (p.1 + ty - q.1) * e.0;
    assert(w == r + tx * e.1 - ty * e.0) by (nonlinear_arith)
        requires
            w == (p.0 + tx - q.0) * e.1 - (p.1 + ty - q.1) * e.0,
            r == e.1 * (p.0 - q.0) - e.0 * (p.1 - q.1),
    ;
    assert(den * w == den * r + (den * tx) * e.1 - (den * ty) * e.0) by (nonlinear_arith)
        requires
            w == r + tx * e.1 - ty * e.0,
    ;
    assert((d.0 * num) * e.1 - (d.1 * num) * e.0 == -(num * c)) by (nonlinear_arith)
        requires
            c == d.1 * e.0 - d.0 * e.1,
    ;
    assert(den * r - num * c == 0) by (nonlinear_arith)
        requires
            (den == c && num == r) || (den == -c && num == -r),
    ;
    assert(den * w == 0);
    assert(w == 0) by (nonlinear_arith)
        requires
            den * w == 0,
            den > 0,
    ;
}

/// `n / d` when `d` divides `n`.
fn exact_div(n: i128, d: i128) -> (r: Option<i128>)
    requires
        d > 0,
        n > i128::MIN,
    ensures
        r.is_some() <==> (n as int) % (d as int) == 0,
        r.is_some() ==> r.unwrap() == (n as int) / (d as int),
{
    let m = n % d;
    let q = n / d;
    proof {
        let ni = n as int;
        let di = d as int;
        vstd::arithmetic::div_mod::lemma_fundamental_div_mod(ni, di);
        vstd::arithmetic::div_mod::lemma_mod_bound(ni, di);
        if n < 0 {
            let a = -ni;
            vstd::arithmetic::div_mod::lemma_fundamental_div_mod(a, di);
            vstd::arithmetic::div_mod::lemma_mod_bound(a, di);
            if a % di == 0 {
                assert(ni == (-(a / di)) * di + 0) by (nonlinear_arith)
                    requires
                        a == di * (a / di),
                        ni == -a,
                ;
                vstd::arithmetic::div_mod::lemma_fundamental_div_mod_converse(
                    ni,
                    di,
                    -(a / di),
                    0,
                );
            } else {
                assert(ni == (-(a / di) - 1) * di + (di - a % di)) by (nonlinear_arith)
                    requires
                        a == di * (a / di) + a % di,
                        ni == -a,
                ;
                vstd::arithmetic::div_mod::lemma_fundamental_div_mod_converse(
                    ni,
                    di,
                    -(a / di) - 1,
                    di - a % di,
                );
            }
        }
    }
    if m == 0 {
        Some(q)
    } else {
        None
    }
}

impl Line {
    pub fn new(point: FixedVec2, dir: IntVec2) -> (r: Line)
        ensures
            r.point == point,
            r.dir == dir,
    {
        Line { point, dir }
    }

    /// The lattice point where this line meets `other`; `None` when the
    /// lines are parallel or meet off the lattice or out of range.
    pub fn intersection(&self, other: &Line) -> (r: Option<FixedVec2>)
        ensures
            match r {
                Some(m) => meet(
                    self.point@,
                    (self.dir.x as int, self.dir.y as int),
                    other.point@,
                    (other.dir.x as int, other.dir.y as int),
                ) == Some(m@),
                None => meet(
                    self.point@,
                    (self.dir.x as int, self.dir.y as int),
                    other.point@,
                    (other.dir.x as int, other.dir.y as int),
                ).is_none(),
            },
    {
        let dx = self.dir.x as i128;
        let dy = self.dir.y as i128;
        let ex = other.dir.x as i128;
        let ey = other.dir.y as i128;
        let px = self.point.x.bits as i128;
        let py = self.point.y.bits as i128;
        let qx = other.point.x.bits as i128;
        let qy = other.point.y.bits as i128;
        assert(-0x8000_0000_0000_0000 <= dy * ex <= 0x8000_0000_0000_0000) by (nonlinear_arith)
            requires
                -0x8000_0000 <= dy <= 0x8000_0000,
                -0x8000_0000 <= ex <= 0x8000_0000,
        ;
        assert(-0x8000_0000_0000_0000 <= dx * ey <= 0x8000_0000_0000_0000) by (nonlinear_arith)
            requires
                -0x8000_0000 <= dx <= 0x8000_0000,
                -0x8000_0000 <= ey <= 0x8000_0000,
        ;
        let c = dy * ex - dx * ey;
        if c == 0 {
            return None;
        }
        assert(-0x1_0000_0000_0000_0000 <= ey * (px - qx) <= 0x1_0000_0000_0000_0000)
            by (nonlinear_arith)
            requires
                -0x8000_0000 <= ey <= 0x8000_0000,
                -0x1_0000_0000 <= px - qx <= 0x1_0000_0000,
        ;
        assert(-0x1_0000_0000_0000_0000 <= ex * (py - qy) <= 0x1_0000_0000_0000_0000)
            by (nonlinear_arith)
            requires
                -0x8000_0000 <= ex <= 0x8000_0000,
                -0x1_0000_0000 <= py - qy <= 0x1_0000_0000,
        ;
        let r = ey * (px - qx) - ex * (py - qy);
        let den = if c < 0 { -c } else { c };
        let num = if c < 0 { -r } else { r };
        assert(-0x1_0000_0000_0000_0000_0000_0000 <= dx * num <= 0x1_0000_0000_0000_0000_0000_0000)
            by (nonlinear_arith)
            requires
                -0x8000_0000 <= dx <= 0x8000_0000,
                -0x2_0000_0000_0000_0000 <= num <= 0x2_0000_0000_0000_0000,
        ;
        assert(-0x1_0000_0000_0000_0000_0000_0000 <= dy * num <= 0x1_0000_0000_0000_0000_0000_0000)
            by (nonlinear_arith)
            requires
                -0x8000_0000 <= dy <= 0x8000_0000,
                -0x2_0000_0000_0000_0000 <= num <= 0x2_0000_0000_0000_0000,
        ;
        let tx = match exact_div(dx * num, den) {
            Some(t) => t,
            None => {
                return None;
            },
        };
        let ty = match exact_div(dy * num, den) {
            Some(t) => t,
            None => {
                return None;
            },
        };
        proof {
            vstd::arithmetic::div_mod::lemma_fundamental_div_mod(dx * num, den as int);
            vstd::arithmetic::div_mod::lemma_fundamental_div_mod(dy * num, den as int);
            assert(-0x1_0000_0000_0000_0000_0000_0000 <= tx <= 0x1_0000_0000_0000_0000_0000_0000)
                by (nonlinear_arith)
                requires
                    den >= 1,
                    den * tx == dx * num,
                    -0x1_0000_0000_0000_0000_0000_0000 <= dx * num
                        <= 0x1_0000_0000_0000_0000_0000_0000,
            ;
            assert(-0x1_0000_0000_0000_0000_0000_0000 <= ty <= 0x1_0000_0000_0000_0000_0000_0000)
                by (nonlinear_arith)
                requires
                    den >= 1,
                    den * ty == dy * num,
                    -0x1_0000_0000_0000_0000_0000_0000 <= dy * num
                        <= 0x1_0000_0000_0000_0000_0000_0000,
            ;
        }
        let x = px + tx;
        let y = py + ty;
        if x < i32::MIN as i128 || x > i32::MAX as i128 || y < i32::MIN as i128 || y
            > i32::MAX as i128 {
            return None;
        }
        Some(FixedVec2::from_bits(x as i32, y as i32))
    }
}

} // verus!
