//! The octile grid: snapping a coordinate to the grid lines around it and
//! the moves that lead from a point to the nearest grid lines.

use vstd::prelude::*;
use crate::direction::{aligned, direction_of, Direction};
use crate::fixed_point::{fits, FixedPoint};
use crate::vec2::{is_odd, FixedVec2};

verus! {

/// Largest absolute tick count of a coordinate that the grid handles.
pub const COORD_LIMIT: i32 = 0x2000_0000;

/// Largest stride of the grid, in ticks.
pub const STRIDE_LIMIT: i32 = 0x1000_0000;

/// Whether a stride is positive, even and within the limit.
pub open spec fn valid_stride(s: int) -> bool {
    0 < s <= STRIDE_LIMIT && s % 2 == 0
}

/// Whether both coordinates of a point are within the coordinate limit.
pub open spec fn in_range(p: (int, int)) -> bool {
    -COORD_LIMIT <= p.0 <= COORD_LIMIT && -COORD_LIMIT <= p.1 <= COORD_LIMIT
}

/// Whether the point with the given tick counts is within the
/// coordinate limit.
pub fn within_limit(x: i64, y: i64) -> (r: bool)
    ensures
        r == in_range((x as int, y as int)),
{
    -(COORD_LIMIT as i64) <= x && x <= COORD_LIMIT as i64 && -(COORD_LIMIT as i64) <= y && y
        <= COORD_LIMIT as i64
}

/// The largest multiple of `s` strictly below `v`.
pub open spec fn below(v: int, s: int) -> int {
    v - 1 - (v - 1) % s
}

/// The smallest multiple of `s` strictly above `v`.
pub open spec fn above(v: int, s: int) -> int {
    v + s - v % s
}

/// Whether both coordinates are multiples of the stride.
pub open spec fn on_grid(p: (int, int), s: int) -> bool {
    p.0 % s == 0 && p.1 % s == 0
}

pub proof fn lemma_below(v: int, s: int)
    requires
        s > 0,
    ensures
        below(v, s) % s == 0,
        below(v, s) < v <= below(v, s) + s,
{
    let w = v - 1;
    vstd::arithmetic::div_mod::lemma_fundamental_div_mod(w, s);
    vstd::arithmetic::div_mod::lemma_mod_multiples_basic(w / s, s);
    assert(s * (w / s) == (w / s) * s) by (nonlinear_arith);
    vstd::arithmetic::div_mod::lemma_mod_bound(w, s);
}

pub proof fn lemma_above(v: int, s: int)
    requires
        s > 0,
    ensures
        above(v, s) % s == 0,
        above(v, s) - s <= v < above(v, s),
{
    vstd::arithmetic::div_mod::lemma_fundamental_div_mod(v, s);
    vstd::arithmetic::div_mod::lemma_mod_multiples_basic(v / s + 1, s);
    assert(s * (v / s) + s == (v / s + 1) * s) by (nonlinear_arith);
    vstd::arithmetic::div_mod::lemma_mod_bound(v, s);
}

/// The remainder of `v` by a positive `s`, between 0 and `s - 1`.
pub fn floor_mod(v: i64, s: i64) -> (r: i64)
    requires
        s > 0,
    ensures
        r == (v as int) % (s as int),
        0 <= r < s,
{
    let m = v % s;
    proof {
        vstd::arithmetic::div_mod::lemma_mod_bound(v as int, s as int);
        if v < 0 {
            let a = -(v as int);
            vstd::arithmetic::div_mod::lemma_fundamental_div_mod(a, s as int);
            vstd::arithmetic::div_mod::lemma_mod_pos_bound(a, s as int);
            if a % (s as int) == 0 {
                assert(v as int == (s as int) * (-(a / (s as int)))) by (nonlinear_arith)
                    requires
                        a == (s as int) * (a / (s as int)),
                        v as int == -a,
                ;
                vstd::arithmetic::div_mod::lemma_mod_multiples_basic(-(a / (s as int)), s as int);
                assert((s as int) * (-(a / (s as int))) == (-(a / (s as int))) * (s as int))
                    by (nonlinear_arith);
            } else {
                assert(v as int == (s as int) * (-(a / (s as int)) - 1) + ((s as int) - a % (
                s as int))) by (nonlinear_arith)
                    requires
                        a == (s as int) * (a / (s as int)) + a % (s as int),
                        v as int == -a,
                ;
                vstd::arithmetic::div_mod::lemma_fundamental_div_mod_converse(
                    v as int,
                    s as int,
                    -(a / (s as int)) - 1,
                    (s as int) - a % (s as int),
                );
            }
        }
    }
    if m < 0 {
        m + s
    } else {
        m
    }
}

/// The largest multiple of the stride strictly below `value`.
pub fn clamp_down(value: FixedPoint, astar_stride: FixedPoint) -> (r: FixedPoint)
    requires
        astar_stride@ > 0,
        value@ - astar_stride@ >= i32::MIN,
    ensures
        r@ == below(value@, astar_stride@),
        r@ % astar_stride@ == 0,
        r@ < value@ <= r@ + astar_stride@,
{
    proof {
        lemma_below(value@, astar_stride@);
    }
    let w: i64 = value.bits as i64 - 1;
    let m = floor_mod(w, astar_stride.bits as i64);
    FixedPoint::from_bits((w - m) as i32)
}

/// The smallest multiple of the stride strictly above `value`.
pub fn clamp_up(value: FixedPoint, astar_stride: FixedPoint) -> (r: FixedPoint)
    requires
        astar_stride@ > 0,
        value@ + astar_stride@ <= i32::MAX,
    ensures
        r@ == above(value@, astar_stride@),
        r@ % astar_stride@ == 0,
        r@ - astar_stride@ <= value@ < r@,
{
    proof {
        lemma_above(value@, astar_stride@);
    }
    let v: i64 = value.bits as i64;
    let m = floor_mod(v, astar_stride.bits as i64);
    FixedPoint::from_bits((v + astar_stride.bits as i64 - m) as i32)
}

/// Whether both coordinates of `position` are multiples of the stride.
pub fn is_grid_point(position: &FixedVec2, astar_stride: FixedPoint) -> (r: bool)
    requires
        astar_stride@ > 0,
    ensures
        r == on_grid(position@, astar_stride@),
{
    floor_mod(position.x.bits as i64, astar_stride.bits as i64) == 0 && floor_mod(
        position.y.bits as i64,
        astar_stride.bits as i64,
    ) == 0
}



/// Whether the grid line through `p` that runs along `dir` exists: the
/// horizontal one needs `y` on the grid, the vertical one `x`, and the two
/// diagonals the sum and the difference of the coordinates.
pub open spec fn leads(p: (int, int), dir: Direction, s: int) -> bool {
    match dir {
        Direction::Left | Direction::Right => p.1 % s == 0,
        Direction::Up | Direction::Down => p.0 % s == 0,
        Direction::TopLeft | Direction::BottomRight => (p.0 + p.1) % s == 0,
        Direction::TopRight | Direction::BottomLeft => (p.0 - p.1) % s == 0,
    }
}

/// The nearest point of the grid lines around `p` in direction `dir`:
/// each coordinate that moves goes to the next multiple of the stride.
pub open spec fn grid_move(p: (int, int), dir: Direction, s: int) -> (int, int) {
    (
        if dir.unit_x() < 0 {
            below(p.0, s)
        } else if dir.unit_x() > 0 {
            above(p.0, s)
        } else {
            p.0
        },
        if dir.unit_y() < 0 {
            below(p.1, s)
        } else if dir.unit_y() > 0 {
            above(p.1, s)
        } else {
            p.1
        },
    )
}

/// `acc` followed by the two moves along one grid line, when that line
/// exists.
pub open spec fn with_line(
    acc: Seq<(Direction, (int, int))>,
    p: (int, int),
    a: Direction,
    b: Direction,
    s: int,
) -> Seq<(Direction, (int, int))> {
    if leads(p, a, s) {
        acc.push((a, grid_move(p, a, s))).push((b, grid_move(p, b, s)))
    } else {
        acc
    }
}

/// All moves from `p` to neighbouring grid points: horizontal, vertical,
/// then the two diagonals.
pub open spec fn grid_moves(p: (int, int), s: int) -> Seq<(Direction, (int, int))> {
    with_line(
        with_line(
            with_line(
                with_line(Seq::empty(), p, Direction::Left, Direction::Right, s),
                p,
                Direction::Up,
                Direction::Down,
                s,
            ),
            p,
            Direction::TopLeft,
            Direction::BottomRight,
            s,
        ),
        p,
        Direction::TopRight,
        Direction::BottomLeft,
        s,
    )
}

/// The plain tick counts of a list of moves.
pub open spec fn moves_view(v: Seq<(Direction, FixedVec2)>) -> Seq<(Direction, (int, int))> {
    Seq::new(v.len(), |i: int| (v[i].0, v[i].1@))
}

/// Whether `e` is the move from `p` along an existing grid line in its
/// direction.
pub open spec fn is_grid_move(e: (Direction, FixedVec2), p: FixedVec2, s: int) -> bool {
    &&& e.1 != p
    &&& e.1@ == grid_move(p@, e.0, s)
    &&& leads(p@, e.0, s)
    &&& aligned(e.1.x@ - p.x@, e.1.y@ - p.y@)
    &&& direction_of(e.1.x@ - p.x@, e.1.y@ - p.y@) == e.0
}

pub proof fn lemma_small_multiple(n: int, s: int)
    requires
        s > 0,
        -s < n < s,
        n % s == 0,
    ensures
        n == 0,
{
    vstd::arithmetic::div_mod::lemma_fundamental_div_mod(n, s);
    let q = n / s;
    assert(n == s * q);
    assert(q == 0) by (nonlinear_arith)
        requires
            n == s * q,
            -s < n < s,
            s > 0,
    ;
}

pub proof fn lemma_mod_sum(a: int, b: int, s: int)
    requires
        s > 0,
        a % s == 0,
        b % s == 0,
    ensures
        (a + b) % s == 0,
        (a - b) % s == 0,
{
    vstd::arithmetic::div_mod::lemma_add_mod_noop(a, b, s);
    vstd::arithmetic::div_mod::lemma_sub_mod_noop(a, b, s);
    vstd::arithmetic::div_mod::lemma_small_mod(0nat, s as nat);
}

/// A move along an existing grid line ends at a different point, in the
/// direction of the move.
pub proof fn lemma_grid_move_aligned(p: (int, int), dir: Direction, s: int)
    requires
        s > 0,
        leads(p, dir, s),
    ensures
        ({
            let q = grid_move(p, dir, s);
            &&& q != p
            &&& aligned(q.0 - p.0, q.1 - p.1)
            &&& direction_of(q.0 - p.0, q.1 - p.1) == dir
        }),
{
    lemma_below(p.0, s);
    lemma_below(p.1, s);
    lemma_above(p.0, s);
    lemma_above(p.1, s);
    let q = grid_move(p, dir, s);
    match dir {
        Direction::TopLeft | Direction::BottomRight => {
            lemma_mod_sum(q.0, q.1, s);
            lemma_mod_sum(q.0 + q.1, p.0 + p.1, s);
            lemma_small_multiple((q.0 + q.1) - (p.0 + p.1), s);
        },
        Direction::TopRight | Direction::BottomLeft => {
            lemma_mod_sum(q.0, q.1, s);
            lemma_mod_sum(q.0 - q.1, p.0 - p.1, s);
            lemma_small_multiple((q.0 - q.1) - (p.0 - p.1), s);
        },
        _ => {},
    }
}

fn push_move(
    result: &mut Vec<(Direction, FixedVec2)>,
    d: Direction,
    q: FixedVec2,
    Ghost(p): Ghost<FixedVec2>,
    Ghost(s): Ghost<int>,
)
    requires
        s > 0,
        leads(p@, d, s),
        q@ == grid_move(p@, d, s),
        forall|k: int| 0 <= k < old(result)@.len() ==> is_grid_move(#[trigger] old(result)@[k], p, s),
    ensures
        final(result)@ == old(result)@.push((d, q)),
        moves_view(final(result)@) == moves_view(old(result)@).push((d, q@)),
        forall|k: int| 0 <= k < final(result)@.len() ==> is_grid_move(#[trigger] final(result)@[k], p, s),
{
    proof {
        lemma_grid_move_aligned(p@, d, s);
    }
    result.push((d, q));
    assert(moves_view(result@) =~= moves_view(old(result)@).push((d, q@)));
}

/// The moves from `position` to the neighbouring grid points, each with
/// its direction.
pub fn directions_to_grid_points(position: FixedVec2, astar_stride: FixedPoint) -> (r: Vec<
    (Direction, FixedVec2),
>)
    requires
        valid_stride(astar_stride@),
        in_range(position@),
    ensures
        moves_view(r@) == grid_moves(position@, astar_stride@),
        forall|k: int| 0 <= k < r@.len() ==> is_grid_move(#[trigger] r@[k], position, astar_stride@),
{
    let s = astar_stride.bits as i64;
    let x = position.x.bits as i64;
    let y = position.y.bits as i64;
    let left = clamp_down(position.x, astar_stride);
    let right = clamp_up(position.x, astar_stride);
    let down = clamp_down(position.y, astar_stride);
    let up = clamp_up(position.y, astar_stride);
    let ghost p = position;
    let ghost st = astar_stride@;
    let mut result: Vec<(Direction, FixedVec2)> = Vec::new();
    assert(moves_view(result@) =~= Seq::empty());
    if floor_mod(y, s) == 0 {
        push_move(&mut result, Direction::Left, FixedVec2 { x: left, y: position.y }, Ghost(p), Ghost(st));
        push_move(&mut result, Direction::Right, FixedVec2 { x: right, y: position.y }, Ghost(p), Ghost(st));
    }
    if floor_mod(x, s) == 0 {
        push_move(&mut result, Direction::Up, FixedVec2 { x: position.x, y: up }, Ghost(p), Ghost(st));
        push_move(&mut result, Direction::Down, FixedVec2 { x: position.x, y: down }, Ghost(p), Ghost(st));
    }
    if floor_mod(x + y, s) == 0 {
        push_move(&mut result, Direction::TopLeft, FixedVec2 { x: left, y: up }, Ghost(p), Ghost(st));
        push_move(&mut result, Direction::BottomRight, FixedVec2 { x: right, y: down }, Ghost(p), Ghost(st));
    }
    if floor_mod(x - y, s) == 0 {
        push_move(&mut result, Direction::TopRight, FixedVec2 { x: right, y: up }, Ghost(p), Ghost(st));
        push_move(&mut result, Direction::BottomLeft, FixedVec2 { x: left, y: down }, Ghost(p), Ghost(st));
    }
    result
}

/// The point one step from `p` in direction `dir`: for an axial direction
/// the next grid line across; for a diagonal one the next grid diagonal
/// that crosses the direction of travel.
pub open spec fn one_step(p: (int, int), dir: Direction, s: int) -> (int, int) {
    match dir {
        Direction::Up | Direction::Down | Direction::Left | Direction::Right => grid_move(
            p,
            dir,
            s,
        ),
        Direction::TopLeft => {
            let t = above(p.1 - p.0, s);
            ((p.0 + p.1 - t) / 2, (p.0 + p.1 + t) / 2)
        },
        Direction::BottomRight => {
            let t = below(p.1 - p.0, s);
            ((p.0 + p.1 - t) / 2, (p.0 + p.1 + t) / 2)
        },
        Direction::BottomLeft => {
            let t = below(p.0 + p.1, s);
            ((t - (p.1 - p.0)) / 2, (t + (p.1 - p.0)) / 2)
        },
        Direction::TopRight => {
            let t = above(p.0 + p.1, s);
            ((t - (p.1 - p.0)) / 2, (t + (p.1 - p.0)) / 2)
        },
    }
}

proof fn lemma_even_multiple(t: int, s: int)
    requires
        s > 0,
        s % 2 == 0,
        t % s == 0,
    ensures
        t % 2 == 0,
{
    vstd::arithmetic::div_mod::lemma_fundamental_div_mod(t, s);
    vstd::arithmetic::div_mod::lemma_fundamental_div_mod(s, 2);
    let k = (s / 2) * (t / s);
    assert(t == 2 * k) by (nonlinear_arith)
        requires
            t == s * (t / s),
            s == 2 * (s / 2),
            k == (s / 2) * (t / s),
    ;
}

/// Half the gap between an even number and an even multiple of the
/// stride next to it.
proof fn lemma_half_gap(u: int, t: int, s: int)
    requires
        u % 2 == 0,
        t % 2 == 0,
        0 < t - u <= s,
    ensures
        (t - u) % 2 == 0,
        1 <= (t - u) / 2 <= s,
{
}

/// One step from a point with an even coordinate sum ends at a different
/// point with an even coordinate sum, in the direction of the step.
pub proof fn lemma_one_step(p: (int, int), dir: Direction, s: int)
    requires
        s > 0,
        s % 2 == 0,
        !is_odd(p.0 + p.1),
    ensures
        ({
            let q = one_step(p, dir, s);
            &&& q != p
            &&& aligned(q.0 - p.0, q.1 - p.1)
            &&& direction_of(q.0 - p.0, q.1 - p.1) == dir
            &&& (dir.unit_x() != 0 && dir.unit_y() != 0 ==> !is_odd(q.0 + q.1))
            &&& (!is_odd(p.0) ==> !is_odd(q.0 + q.1))
            &&& -s <= q.0 - p.0 <= s
            &&& -s <= q.1 - p.1 <= s
        }),
{
    let x = p.0;
    let y = p.1;
    let q = one_step(p, dir, s);
    match dir {
        Direction::Up => {
            lemma_above(y, s);
            lemma_even_multiple(above(y, s), s);
        },
        Direction::Down => {
            lemma_below(y, s);
            lemma_even_multiple(below(y, s), s);
        },
        Direction::Left => {
            lemma_below(x, s);
            lemma_even_multiple(below(x, s), s);
        },
        Direction::Right => {
            lemma_above(x, s);
            lemma_even_multiple(above(x, s), s);
        },
        Direction::TopLeft => {
            let t = above(y - x, s);
            lemma_above(y - x, s);
            lemma_even_multiple(t, s);
            lemma_half_gap(y - x, t, s);
            let h = (t - (y - x)) / 2;
            assert(q.0 == x - h && q.1 == y + h);
        },
        Direction::BottomRight => {
            let t = below(y - x, s);
            lemma_below(y - x, s);
            lemma_even_multiple(t, s);
            lemma_half_gap(t, y - x, s);
            let h = ((y - x) - t) / 2;
            assert(q.0 == x + h && q.1 == y - h);
        },
        Direction::BottomLeft => {
            let t = below(x + y, s);
            lemma_below(x + y, s);
            lemma_even_multiple(t, s);
            let h = ((x + y) - t) / 2;
            assert(q.0 == x - h && q.1 == y - h);
        },
        Direction::TopRight => {
            let t = above(x + y, s);
            lemma_above(x + y, s);
            lemma_even_multiple(t, s);
            let h = (t - (x + y)) / 2;
            assert(q.0 == x + h && q.1 == y + h);
        },
    }
}

/// Half of an even number.
fn half(v: i64) -> (r: i64)
    requires
        (v as int) % 2 == 0,
    ensures
        r == (v as int) / 2,
        2 * r == v,
{
    v / 2
}

/// One step from `position` in `direction` to the nearest grid line that
/// crosses the direction of travel.
pub fn to_nearest_one_step_point(
    position: &FixedVec2,
    direction: Direction,
    astar_stride: FixedPoint,
) -> (r: FixedVec2)
    requires
        valid_stride(astar_stride@),
        in_range(position@),
        !is_odd(position.x@ + position.y@),
    ensures
        r@ == one_step(position@, direction, astar_stride@),
        r != *position,
        aligned(r.x@ - position.x@, r.y@ - position.y@),
        direction_of(r.x@ - position.x@, r.y@ - position.y@) == direction,
        !is_odd(position.x@) || (direction.unit_x() != 0 && direction.unit_y() != 0) ==> !is_odd(
            r.x@ + r.y@,
        ),
{
    let x = position.x.bits as i64;
    let y = position.y.bits as i64;
    proof {
        lemma_one_step(position@, direction, astar_stride@);
        lemma_below(position.y@ - position.x@, astar_stride@);
        lemma_above(position.y@ - position.x@, astar_stride@);
        lemma_below(position.x@ + position.y@, astar_stride@);
        lemma_above(position.x@ + position.y@, astar_stride@);
        lemma_even_multiple(below(position.y@ - position.x@, astar_stride@), astar_stride@);
        lemma_even_multiple(above(position.y@ - position.x@, astar_stride@), astar_stride@);
        lemma_even_multiple(below(position.x@ + position.y@, astar_stride@), astar_stride@);
        lemma_even_multiple(above(position.x@ + position.y@, astar_stride@), astar_stride@);
    }
    match direction {
        Direction::Up => FixedVec2 { x: position.x, y: clamp_up(position.y, astar_stride) },
        Direction::Down => FixedVec2 { x: position.x, y: clamp_down(position.y, astar_stride) },
        Direction::Left => FixedVec2 { x: clamp_down(position.x, astar_stride), y: position.y },
        Direction::Right => FixedVec2 { x: clamp_up(position.x, astar_stride), y: position.y },
        Direction::TopLeft => {
            let t = clamp_up(FixedPoint::from_bits((y - x) as i32), astar_stride).bits as i64;
            FixedVec2::from_bits(half(x + y - t) as i32, half(x + y + t) as i32)
        },
        Direction::BottomRight => {
            let t = clamp_down(FixedPoint::from_bits((y - x) as i32), astar_stride).bits as i64;
            FixedVec2::from_bits(half(x + y - t) as i32, half(x + y + t) as i32)
        },
        Direction::BottomLeft => {
            let t = clamp_down(FixedPoint::from_bits((x + y) as i32), astar_stride).bits as i64;
            FixedVec2::from_bits(half(t - (y - x)) as i32, half(t + (y - x)) as i32)
        },
        Direction::TopRight => {
            let t = clamp_up(FixedPoint::from_bits((x + y) as i32), astar_stride).bits as i64;
            FixedVec2::from_bits(half(t - (y - x)) as i32, half(t + (y - x)) as i32)
        },
    }
}


/// Slope of a line along an aligned displacement: 0, 1 or -1, and `None`
/// for a vertical line.
pub open spec fn slope(dx: int, dy: int) -> Option<int> {
    if dx == 0 {
        None
    } else if dy == 0 {
        Some(0)
    } else if dy == dx {
        Some(1)
    } else {
        Some(-1)
    }
}

/// Where a line through `p` along an aligned displacement meets its
/// reference axis: `x` for a vertical line, else `y - slope * x`.
pub open spec fn intercept(p: (int, int), dx: int, dy: int) -> int {
    if dx == 0 {
        p.0
    } else if dy == 0 {
        p.1
    } else if dy == dx {
        p.1 - p.0
    } else {
        p.1 + p.0
    }
}

/// `d` divided by the difference `k` of two distinct slopes, which is 1,
/// -1, 2 or -2; halves are rounded down.
pub open spec fn divide_by_slopes(d: int, k: int) -> int {
    if k == 1 {
        d
    } else if k == -1 {
        -d
    } else if k == 2 {
        d / 2
    } else {
        -(d / 2)
    }
}

/// Height at `x` of the line with slope `k` (0, 1 or -1) and intercept
/// `c`.
pub open spec fn line_y(k: int, x: int, c: int) -> int {
    if k == 0 {
        c
    } else if k == 1 {
        x + c
    } else {
        c - x
    }
}

/// Whether `v` lies between `a` and `b`, the ends included.
pub open spec fn between(v: int, a: int, b: int) -> bool {
    (a <= v <= b) || (b <= v <= a)
}

/// Whether `q` lies on the line through `p` along the displacement
/// `(dx, dy)`.
pub open spec fn on_line(q: (int, int), p: (int, int), dx: int, dy: int) -> bool {
    (q.0 - p.0) * dy == (q.1 - p.1) * dx
}

/// Whether two lines along aligned displacements have one crossing.
pub open spec fn lines_cross(dx1: int, dy1: int, dx2: int, dy2: int) -> bool {
    &&& aligned(dx1, dy1)
    &&& aligned(dx2, dy2)
    &&& slope(dx1, dy1) != slope(dx2, dy2)
}

/// The point where the segment from `a0` to `a1` meets the line through
/// `b0` and `b1`. Two sloped lines meet within the horizontal extent of
/// the segment; a vertical segment meets a sloped line within its own
/// vertical extent; a sloped segment meets a vertical line only within
/// the vertical extent of the span from `b0` to `b1`.
pub open spec fn crossing(a0: (int, int), a1: (int, int), b0: (int, int), b1: (int, int)) -> Option<
    (int, int),
> {
    let m1 = slope(a1.0 - a0.0, a1.1 - a0.1);
    let c1 = intercept(a0, a1.0 - a0.0, a1.1 - a0.1);
    let m2 = slope(b1.0 - b0.0, b1.1 - b0.1);
    let c2 = intercept(b0, b1.0 - b0.0, b1.1 - b0.1);
    match (m1, m2) {
        (Some(k1), Some(k2)) => {
            let x = divide_by_slopes(c2 - c1, k1 - k2);
            let y = line_y(k1, x, c1);
            if between(x, a0.0, a1.0) && fits(y) {
                Some((x, y))
            } else {
                None
            }
        },
        (None, Some(k2)) => {
            let y = line_y(k2, c1, c2);
            if between(y, a0.1, a1.1) {
                Some((c1, y))
            } else {
                None
            }
        },
        (Some(k1), None) => {
            let y = line_y(k1, c2, c1);
            if between(y, b0.1, b1.1) {
                Some((c2, y))
            } else {
                None
            }
        },
        (None, None) => None,
    }
}

/// A crossing lies on both lines.
pub proof fn lemma_crossing_on_lines(
    a0: (int, int),
    a1: (int, int),
    b0: (int, int),
    b1: (int, int),
)
    requires
        lines_cross(a1.0 - a0.0, a1.1 - a0.1, b1.0 - b0.0, b1.1 - b0.1),
        !is_odd(a0.0 + a0.1),
        !is_odd(b0.0 + b0.1),
        crossing(a0, a1, b0, b1).is_some(),
    ensures
        on_line(crossing(a0, a1, b0, b1).unwrap(), a0, a1.0 - a0.0, a1.1 - a0.1),
        on_line(crossing(a0, a1, b0, b1).unwrap(), b0, b1.0 - b0.0, b1.1 - b0.1),
        !is_odd(b0.0) && (!is_odd(a0.0) || (a1.0 - a0.0 != 0 && a1.1 - a0.1 != 0)) ==> !is_odd(
            crossing(a0, a1, b0, b1).unwrap().0 + crossing(a0, a1, b0, b1).unwrap().1,
        ),
{
    let dx1 = a1.0 - a0.0;
    let dy1 = a1.1 - a0.1;
    let dx2 = b1.0 - b0.0;
    let dy2 = b1.1 - b0.1;
    let q = crossing(a0, a1, b0, b1).unwrap();
    let m1 = slope(dx1, dy1);
    let c1 = intercept(a0, dx1, dy1);
    let m2 = slope(dx2, dy2);
    let c2 = intercept(b0, dx2, dy2);
    if m1.is_some() && m2.is_some() {
        let k1 = m1.unwrap();
        let k2 = m2.unwrap();
        assert(k1 == 0 || k1 == 1 || k1 == -1);
        assert(k2 == 0 || k2 == 1 || k2 == -1);
        if k1 - k2 == 2 || k1 - k2 == -2 {
            assert((c2 - c1) % 2 == 0);
        }
        assert(q.0 == divide_by_slopes(c2 - c1, k1 - k2));
        assert(q.1 == line_y(k1, q.0, c1));
        assert(q.1 == line_y(k2, q.0, c2));
    }
    assert(on_line(q, a0, dx1, dy1)) by (nonlinear_arith)
        requires
            aligned(dx1, dy1),
            m1 == slope(dx1, dy1),
            c1 == intercept(a0, dx1, dy1),
            m1.is_none() ==> q.0 == c1,
            m1.is_some() ==> q.1 == line_y(m1.unwrap(), q.0, c1),
    ;
    assert(on_line(q, b0, dx2, dy2)) by (nonlinear_arith)
        requires
            aligned(dx2, dy2),
            m2 == slope(dx2, dy2),
            c2 == intercept(b0, dx2, dy2),
            m2.is_none() ==> q.0 == c2,
            m2.is_some() ==> q.1 == line_y(m2.unwrap(), q.0, c2),
    ;
}

fn exec_slope(dx: i64, dy: i64) -> (r: Option<i64>)
    requires
        aligned(dx as int, dy as int),
    ensures
        match r {
            Some(k) => slope(dx as int, dy as int) == Some(k as int),
            None => slope(dx as int, dy as int).is_none(),
        },
{
    if dx == 0 {
        None
    } else if dy == 0 {
        Some(0)
    } else if dy == dx {
        Some(1)
    } else {
        Some(-1)
    }
}

fn exec_intercept(p: FixedVec2, dx: i64, dy: i64) -> (r: i64)
    requires
        aligned(dx as int, dy as int),
    ensures
        r == intercept(p@, dx as int, dy as int),
{
    let x = p.x.bits as i64;
    let y = p.y.bits as i64;
    if dx == 0 {
        x
    } else if dy == 0 {
        y
    } else if dy == dx {
        y - x
    } else {
        y + x
    }
}

fn exec_between(v: i64, a: i64, b: i64) -> (r: bool)
    ensures
        r == between(v as int, a as int, b as int),
{
    (a <= v && v <= b) || (b <= v && v <= a)
}

/// Where the segment from `line1_start` to `line1_end` meets the line
/// through `line2_start` and `line2_end`.
pub fn line_intersection_infinite(
    line1_start: FixedVec2,
    line1_end: FixedVec2,
    line2_start: FixedVec2,
    line2_end: FixedVec2,
) -> (r: Option<FixedVec2>)
    requires
        lines_cross(
            line1_end.x@ - line1_start.x@,
            line1_end.y@ - line1_start.y@,
            line2_end.x@ - line2_start.x@,
            line2_end.y@ - line2_start.y@,
        ),
        !is_odd(line1_start.x@ + line1_start.y@),
        !is_odd(line2_start.x@ + line2_start.y@),
    ensures
        match r {
            Some(q) => crossing(line1_start@, line1_end@, line2_start@, line2_end@) == Some(q@),
            None => crossing(line1_start@, line1_end@, line2_start@, line2_end@).is_none(),
        },
        r.is_some() && !is_odd(line2_start.x@) && (!is_odd(line1_start.x@) || (line1_end.x@
            != line1_start.x@ && line1_end.y@ != line1_start.y@)) ==> !is_odd(
            r.unwrap().x@ + r.unwrap().y@,
        ),
{
    let dx1 = line1_end.x.bits as i64 - line1_start.x.bits as i64;
    let dy1 = line1_end.y.bits as i64 - line1_start.y.bits as i64;
    let dx2 = line2_end.x.bits as i64 - line2_start.x.bits as i64;
    let dy2 = line2_end.y.bits as i64 - line2_start.y.bits as i64;
    let m1 = exec_slope(dx1, dy1);
    let c1 = exec_intercept(line1_start, dx1, dy1);
    let m2 = exec_slope(dx2, dy2);
    let c2 = exec_intercept(line2_start, dx2, dy2);
    proof {
        if crossing(line1_start@, line1_end@, line2_start@, line2_end@).is_some() {
            lemma_crossing_on_lines(line1_start@, line1_end@, line2_start@, line2_end@);
        }
    }
    match (m1, m2) {
        (Some(k1), Some(k2)) => {
            let d = c2 - c1;
            let x = if k1 - k2 == 1 {
                d
            } else if k1 - k2 == -1 {
                -d
            } else if k1 - k2 == 2 {
                half(d)
            } else {
                -half(d)
            };
            assert(x == divide_by_slopes(c2 - c1, k1 - k2));
            if !exec_between(x, line1_start.x.bits as i64, line1_end.x.bits as i64) {
                return None;
            }
            let y = if k1 == 0 {
                c1
            } else if k1 == 1 {
                x + c1
            } else {
                c1 - x
            };
            if y < i32::MIN as i64 || y > i32::MAX as i64 {
                return None;
            }
            Some(FixedVec2::from_bits(x as i32, y as i32))
        },
        (None, Some(k2)) => {
            let y = if k2 == 0 {
                c2
            } else if k2 == 1 {
                c1 + c2
            } else {
                c2 - c1
            };
            if exec_between(y, line1_start.y.bits as i64, line1_end.y.bits as i64) {
                Some(FixedVec2::from_bits(c1 as i32, y as i32))
            } else {
                None
            }
        },
        (Some(k1), None) => {
            let y = if k1 == 0 {
                c1
            } else if k1 == 1 {
                c2 + c1
            } else {
                c1 - c2
            };
            if exec_between(y, line2_start.y.bits as i64, line2_end.y.bits as i64) {
                Some(FixedVec2::from_bits(c2 as i32, y as i32))
            } else {
                None
            }
        },
        (None, None) => None,
    }
}

} // verus!
