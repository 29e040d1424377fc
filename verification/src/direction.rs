//! The eight compass directions of the octile grid and their algebra.

use vstd::prelude::*;
use crate::fixed_point::{fits, FixedPoint};
use crate::vec2::{FixedVec2, IntVec2};

verus! {

/// One of the eight directions in which a trace may run.
#[derive(Clone, Copy, Debug, PartialEq, Eq, Structural, Hash, PartialOrd, Ord)]
pub enum Direction {
    Up,
    Down,
    Left,
    Right,
    TopRight,
    TopLeft,
    BottomRight,
    BottomLeft,
}

/// How a search node was reached from its predecessor.
#[derive(Clone, Copy, Debug, PartialEq, Eq, Structural)]
pub enum AStarNodeDirection {
    /// The node has no predecessor.
    Unset,
    /// A move within one layer.
    Planar(Direction),
    /// A change of layer at a fixed position.
    Vertical { from_layer: usize },
}

/// A displacement that lies on none of the eight directions.
#[derive(Clone, Copy, Debug, PartialEq, Eq, Structural)]
pub struct DirectionError {
    pub dx: i64,
    pub dy: i64,
}

/// The direction whose clockwise index, counted from `Up`, is `i` modulo 8.
pub open spec fn direction_at(i: int) -> Direction {
    let k = i % 8;
    if k == 0 {
        Direction::Up
    } else if k == 1 {
        Direction::TopRight
    } else if k == 2 {
        Direction::Right
    } else if k == 3 {
        Direction::BottomRight
    } else if k == 4 {
        Direction::Down
    } else if k == 5 {
        Direction::BottomLeft
    } else if k == 6 {
        Direction::Left
    } else {
        Direction::TopLeft
    }
}

/// Whether a displacement is horizontal, vertical or at exactly 45 degrees
/// (the zero displacement included).
pub open spec fn aligned(dx: int, dy: int) -> bool {
    dx == 0 || dy == 0 || dx == dy || dx == -dy
}

/// The sign of `v`: -1, 0 or 1.
pub open spec fn sign(v: int) -> int {
    if v > 0 {
        1
    } else if v < 0 {
        -1
    } else {
        0
    }
}

/// The larger of the absolute values of `dx` and `dy`.
pub open spec fn chebyshev(dx: int, dy: int) -> int {
    let ax = if dx < 0 { -dx } else { dx };
    let ay = if dy < 0 { -dy } else { dy };
    if ax > ay { ax } else { ay }
}

/// The direction whose unit vector has the signs of a non-zero aligned
/// displacement.
pub open spec fn direction_of(dx: int, dy: int) -> Direction {
    if dx == 0 {
        if dy > 0 { Direction::Up } else { Direction::Down }
    } else if dy == 0 {
        if dx > 0 { Direction::Right } else { Direction::Left }
    } else if dx > 0 {
        if dy > 0 { Direction::TopRight } else { Direction::BottomRight }
    } else {
        if dy > 0 { Direction::TopLeft } else { Direction::BottomLeft }
    }
}

impl Direction {
    /// Clockwise index of the direction, counted from `Up`.
    pub open spec fn index(self) -> int {
        match self {
            Direction::Up => 0,
            Direction::TopRight => 1,
            Direction::Right => 2,
            Direction::BottomRight => 3,
            Direction::Down => 4,
            Direction::BottomLeft => 5,
            Direction::Left => 6,
            Direction::TopLeft => 7,
        }
    }

    /// The direction `steps` eighths of a turn clockwise from this one.
    pub open spec fn rotated(self, steps: int) -> Direction {
        direction_at(self.index() + steps)
    }

    /// How many eighths of a turn clockwise lead from `other` to `self`.
    pub open spec fn turn_from(self, other: Direction) -> int {
        (self.index() - other.index() + 8) % 8
    }

    /// Horizontal component of the unit vector.
    pub open spec fn unit_x(self) -> int {
        match self {
            Direction::Up | Direction::Down => 0,
            Direction::Right | Direction::TopRight | Direction::BottomRight => 1,
            Direction::Left | Direction::TopLeft | Direction::BottomLeft => -1,
        }
    }

    /// Vertical component of the unit vector.
    pub open spec fn unit_y(self) -> int {
        match self {
            Direction::Left | Direction::Right => 0,
            Direction::Up | Direction::TopRight | Direction::TopLeft => 1,
            Direction::Down | Direction::BottomRight | Direction::BottomLeft => -1,
        }
    }

    pub fn opposite(&self) -> (r: Direction)
        ensures
            r == self.rotated(4),
    {
        match self {
            Direction::Up => Direction::Down,
            Direction::Down => Direction::Up,
            Direction::Left => Direction::Right,
            Direction::Right => Direction::Left,
            Direction::TopRight => Direction::BottomLeft,
            Direction::TopLeft => Direction::BottomRight,
            Direction::BottomRight => Direction::TopLeft,
            Direction::BottomLeft => Direction::TopRight,
        }
    }

    pub fn is_diagonal(&self) -> (r: bool)
        ensures
            r == (self.index() % 2 == 1),
            r == (self.unit_x() != 0 && self.unit_y() != 0),
    {
        match self {
            Direction::TopRight | Direction::TopLeft | Direction::BottomRight
            | Direction::BottomLeft => true,
            _ => false,
        }
    }

    pub fn direction_to_int(&self) -> (r: i32)
        ensures
            r == self.index(),
    {
        match self {
            Direction::Up => 0,
            Direction::TopRight => 1,
            Direction::Right => 2,
            Direction::BottomRight => 3,
            Direction::Down => 4,
            Direction::BottomLeft => 5,
            Direction::Left => 6,
            Direction::TopLeft => 7,
        }
    }

    pub fn int_to_direction(i: i32) -> (r: Direction)
        requires
            0 <= i < 8,
        ensures
            r == direction_at(i as int),
            r.index() == i,
    {
        if i == 0 {
            Direction::Up
        } else if i == 1 {
            Direction::TopRight
        } else if i == 2 {
            Direction::Right
        } else if i == 3 {
            Direction::BottomRight
        } else if i == 4 {
            Direction::Down
        } else if i == 5 {
            Direction::BottomLeft
        } else if i == 6 {
            Direction::Left
        } else {
            Direction::TopLeft
        }
    }

    /// Whether the two directions differ by a quarter turn.
    pub fn is_right_angle(&self, other: Direction) -> (r: bool)
        ensures
            r == (self.turn_from(other) == 2 || self.turn_from(other) == 6),
    {
        let d: i32 = (self.direction_to_int() - other.direction_to_int() + 8) % 8;
        d == 2 || d == 6
    }

    /// Whether the two directions differ by three eighths of a turn.
    pub fn is_sharp_angle(&self, other: Direction) -> (r: bool)
        ensures
            r == (self.turn_from(other) == 3 || self.turn_from(other) == 5),
    {
        let d: i32 = (self.direction_to_int() - other.direction_to_int() + 8) % 8;
        d == 3 || d == 5
    }

    /// The direction next to `dir2` on the side of `dir1`, for two
    /// directions three eighths of a turn apart.
    pub fn between_sharp_angle(dir1: Direction, dir2: Direction) -> (r: Direction)
        requires
            dir1.turn_from(dir2) == 3 || dir1.turn_from(dir2) == 5,
        ensures
            dir1.turn_from(dir2) == 3 ==> r == dir2.rotated(1),
            dir1.turn_from(dir2) == 5 ==> r == dir2.rotated(7),
    {
        let i1: i32 = dir1.direction_to_int();
        let i2: i32 = dir2.direction_to_int();
        let d: i32 = (i1 - i2 + 8) % 8;
        if d == 3 {
            Direction::int_to_direction((i2 + 1) % 8)
        } else {
            Direction::int_to_direction((i2 + 7) % 8)
        }
    }

    /// The direction halfway between two directions a quarter turn apart.
    pub fn between_right_angle(dir1: Direction, dir2: Direction) -> (r: Direction)
        requires
            dir1.turn_from(dir2) == 2 || dir1.turn_from(dir2) == 6,
        ensures
            dir1.turn_from(dir2) == 2 ==> r == dir2.rotated(1),
            dir1.turn_from(dir2) == 6 ==> r == dir2.rotated(7),
    {
        let i1: i32 = dir1.direction_to_int();
        let i2: i32 = dir2.direction_to_int();
        let d: i32 = (i1 - i2 + 8) % 8;
        if d == 2 {
            Direction::int_to_direction((i2 + 1) % 8)
        } else {
            Direction::int_to_direction((i2 + 7) % 8)
        }
    }

    /// Whether `self` is one, two or three eighths of a turn
    /// anticlockwise from `other`.
    pub fn left_45_90_135(&self, other: Direction) -> (r: bool)
        ensures
            r == (5 <= self.turn_from(other) <= 7),
    {
        let d: i32 = (self.direction_to_int() - other.direction_to_int() + 8) % 8;
        d == 7 || d == 6 || d == 5
    }

    /// Whether `self` is one, two or three eighths of a turn clockwise
    /// from `other`.
    pub fn right_45_90_135(&self, other: Direction) -> (r: bool)
        ensures
            r == (1 <= self.turn_from(other) <= 3),
    {
        let d: i32 = (self.direction_to_int() - other.direction_to_int() + 8) % 8;
        d == 1 || d == 2 || d == 3
    }

    pub fn left_90_dir(&self) -> (r: Direction)
        ensures
            r == self.rotated(6),
    {
        Direction::int_to_direction((self.direction_to_int() + 6) % 8)
    }

    pub fn right_90_dir(&self) -> (r: Direction)
        ensures
            r == self.rotated(2),
    {
        Direction::int_to_direction((self.direction_to_int() + 2) % 8)
    }

    pub fn left_45_dir(&self) -> (r: Direction)
        ensures
            r == self.rotated(7),
    {
        Direction::int_to_direction((self.direction_to_int() + 7) % 8)
    }

    pub fn right_45_dir(&self) -> (r: Direction)
        ensures
            r == self.rotated(1),
    {
        Direction::int_to_direction((self.direction_to_int() + 1) % 8)
    }

    /// The eight directions: the four axial ones, then the diagonals.
    pub fn all_directions() -> (r: Vec<Direction>)
        ensures
            r@ == seq![
                Direction::Up,
                Direction::Down,
                Direction::Left,
                Direction::Right,
                Direction::TopRight,
                Direction::TopLeft,
                Direction::BottomRight,
                Direction::BottomLeft,
            ],
    {
        let mut v: Vec<Direction> = Vec::new();
        v.push(Direction::Up);
        v.push(Direction::Down);
        v.push(Direction::Left);
        v.push(Direction::Right);
        v.push(Direction::TopRight);
        v.push(Direction::TopLeft);
        v.push(Direction::BottomRight);
        v.push(Direction::BottomLeft);
        assert(v@ =~= seq![
            Direction::Up,
            Direction::Down,
            Direction::Left,
            Direction::Right,
            Direction::TopRight,
            Direction::TopLeft,
            Direction::BottomRight,
            Direction::BottomLeft,
        ]);
        v
    }

    /// The unit vector of the direction in whole numbers.
    pub fn to_int_vec2(&self) -> (r: IntVec2)
        ensures
            r.x == self.unit_x(),
            r.y == self.unit_y(),
    {
        match self {
            Direction::Up => IntVec2::new(0, 1),
            Direction::Down => IntVec2::new(0, -1),
            Direction::Left => IntVec2::new(-1, 0),
            Direction::Right => IntVec2::new(1, 0),
            Direction::TopRight => IntVec2::new(1, 1),
            Direction::TopLeft => IntVec2::new(-1, 1),
            Direction::BottomRight => IntVec2::new(1, -1),
            Direction::BottomLeft => IntVec2::new(-1, -1),
        }
    }

    /// The displacement of `scale` along each non-zero axis of the
    /// direction.
    pub fn to_fixed_vec2(&self, scale: FixedPoint) -> (r: FixedVec2)
        requires
            fits(-scale@),
        ensures
            r@ == (self.unit_x() * scale@, self.unit_y() * scale@),
    {
        let u = self.to_int_vec2();
        FixedVec2::from_bits(u.x * scale.bits, u.y * scale.bits)
    }

    /// Whether `end` lies in one of the eight directions from `start`
    /// and differs from it.
    pub fn is_two_points_valid_direction(start: FixedVec2, end: FixedVec2) -> (r: bool)
        ensures
            r == (start != end && aligned(end.x@ - start.x@, end.y@ - start.y@)),
    {
        match Self::from_points(start, end) {
            Ok(Some(_)) => true,
            _ => false,
        }
    }

    /// The direction from `start` to `end`: `Ok(None)` when the points
    /// coincide, an error when the displacement lies on none of the
    /// eight directions.
    pub fn from_points(start: FixedVec2, end: FixedVec2) -> (r: Result<
        Option<Direction>,
        DirectionError,
    >)
        ensures
            match r {
                Ok(Some(d)) => start != end && aligned(end.x@ - start.x@, end.y@ - start.y@) && d
                    == direction_of(end.x@ - start.x@, end.y@ - start.y@),
                Ok(None) => start == end,
                Err(e) => !aligned(end.x@ - start.x@, end.y@ - start.y@) && e.dx == end.x@
                    - start.x@ && e.dy == end.y@ - start.y@,
            },
    {
        let dx: i64 = end.x.bits as i64 - start.x.bits as i64;
        let dy: i64 = end.y.bits as i64 - start.y.bits as i64;
        if dx == 0 && dy == 0 {
            Ok(None)
        } else if dx == 0 {
            if dy > 0 {
                Ok(Some(Direction::Up))
            } else {
                Ok(Some(Direction::Down))
            }
        } else if dy == 0 {
            if dx > 0 {
                Ok(Some(Direction::Right))
            } else {
                Ok(Some(Direction::Left))
            }
        } else if dx == dy || dx == -dy {
            if dx > 0 {
                if dy > 0 {
                    Ok(Some(Direction::TopRight))
                } else {
                    Ok(Some(Direction::BottomRight))
                }
            } else {
                if dy > 0 {
                    Ok(Some(Direction::TopLeft))
                } else {
                    Ok(Some(Direction::BottomLeft))
                }
            }
        } else {
            Err(DirectionError { dx, dy })
        }
    }
}

/// The larger absolute coordinate of a displacement.
pub fn chebyshev_distance(dx: i64, dy: i64) -> (r: i64)
    requires
        -0x1_0000_0000 <= dx <= 0x1_0000_0000,
        -0x1_0000_0000 <= dy <= 0x1_0000_0000,
    ensures
        r == chebyshev(dx as int, dy as int),
{
    let ax = if dx < 0 { -dx } else { dx };
    let ay = if dy < 0 { -dy } else { dy };
    if ax > ay { ax } else { ay }
}

/// Turning around twice gives the direction back.
pub proof fn lemma_opposite_involution(d: Direction)
    ensures
        d.rotated(4).rotated(4) == d,
{
}

/// A quarter turn to the left followed by a quarter turn to the right
/// gives the direction back.
pub proof fn lemma_left_then_right_90(d: Direction)
    ensures
        d.rotated(6).rotated(2) == d,
{
}

/// A direction is at a right angle to its quarter turn to the left.
pub proof fn lemma_left_90_is_right_angle(d: Direction)
    ensures
        d.turn_from(d.rotated(6)) == 2 || d.turn_from(d.rotated(6)) == 6,
{
}

/// Rotations compose by adding their steps.
pub proof fn lemma_rotated_twice(d: Direction, a: int, b: int)
    ensures
        d.rotated(a).rotated(b) == d.rotated(a + b),
{
}

/// A non-zero aligned displacement is its direction's unit vector scaled
/// by the larger absolute coordinate.
pub proof fn lemma_direction_of_unit(dx: int, dy: int)
    requires
        aligned(dx, dy),
        dx != 0 || dy != 0,
    ensures
        dx == direction_of(dx, dy).unit_x() * chebyshev(dx, dy),
        dy == direction_of(dx, dy).unit_y() * chebyshev(dx, dy),
        chebyshev(dx, dy) > 0,
{
}

/// Scaling a direction's unit vector by a positive length gives a
/// displacement whose direction is that direction.
pub proof fn lemma_unit_direction(d: Direction, len: int)
    requires
        len > 0,
    ensures
        aligned(d.unit_x() * len, d.unit_y() * len),
        direction_of(d.unit_x() * len, d.unit_y() * len) == d,
        chebyshev(d.unit_x() * len, d.unit_y() * len) == len,
{
}

} // verus!
