//! Shortest-path search between two pads on the octile grid.

use vstd::prelude::*;
use crate::direction::{
    aligned, chebyshev, chebyshev_distance, direction_of, lemma_direction_of_unit,
    lemma_unit_direction, Direction,
};
use crate::fixed_point::FixedPoint;
use crate::grid::{between, crossing, in_range, intercept, line_intersection_infinite, slope};
use crate::oracle::{
    ask, bisect, blocked, geometric, lemma_bisect, lemma_parts, lies_between, trace_oracle,
};
use crate::pcb_problem::PadLayer;
use crate::vec2::{is_even_even, is_odd, FixedVec2};

verus! {

/// What one search needs to know about its two pads and its copper.
#[derive(Debug, Clone, Copy)]
pub struct AStarModel {
    pub start: FixedVec2,
    pub end: FixedVec2,
    pub start_layers: PadLayer,
    pub end_layers: PadLayer,
    pub num_layers: usize,
    pub trace_width: FixedPoint,
    pub trace_clearance: FixedPoint,
    pub via_diameter: FixedPoint,
}

/// The tunable values of one search.
#[derive(Debug, Clone, Copy)]
pub struct AStarSettings {
    /// Distance between neighbouring grid lines; positive and even.
    pub astar_stride: FixedPoint,
    /// After this many expansions the search gives up.
    pub astar_max_expansions: usize,
    /// What one change of layer costs, as a length.
    pub via_cost: FixedPoint,
    /// How many rewrites the path found may undergo.
    pub max_rewrites: usize,
}

/// Cost of one tick along an axis.
pub const STRAIGHT_COST: u64 = 65536;

/// Cost of one tick along a diagonal: the cost of a straight tick times
/// the square root of two, rounded to the nearest whole number.
pub const DIAGONAL_COST: u64 = 92682;

/// The point reached from `p` after `len` ticks in direction `d`.
pub open spec fn stepped(p: FixedVec2, d: Direction, len: int) -> FixedVec2 {
    FixedVec2 {
        x: FixedPoint { bits: (p.x@ + d.unit_x() * len) as i32 },
        y: FixedPoint { bits: (p.y@ + d.unit_y() * len) as i32 },
    }
}

/// The octile cost of a displacement: diagonal ticks as far as both
/// coordinates reach, straight ticks for the rest.
pub open spec fn octile_cost(dx: int, dy: int) -> int {
    let ax = if dx < 0 { -dx } else { dx };
    let ay = if dy < 0 { -dy } else { dy };
    if ax < ay {
        (ay - ax) * STRAIGHT_COST + ax * DIAGONAL_COST
    } else {
        (ax - ay) * STRAIGHT_COST + ay * DIAGONAL_COST
    }
}

/// The octile cost of going from `a` to `b`.
pub fn octile_distance_fixed(a: FixedVec2, b: FixedVec2) -> (r: u64)
    ensures
        r == octile_cost(b.x@ - a.x@, b.y@ - a.y@),
{
    let dx: i64 = b.x.bits as i64 - a.x.bits as i64;
    let dy: i64 = b.y.bits as i64 - a.y.bits as i64;
    let ax: u64 = if dx < 0 { (-dx) as u64 } else { dx as u64 };
    let ay: u64 = if dy < 0 { (-dy) as u64 } else { dy as u64 };
    if ax < ay {
        (ay - ax) * STRAIGHT_COST + ax * DIAGONAL_COST
    } else {
        (ax - ay) * STRAIGHT_COST + ay * DIAGONAL_COST
    }
}

/// `a + b`, or the largest cost where the sum does not fit.
pub fn saturating_cost(a: u64, b: u64) -> (r: u64)
    ensures
        r == if a + b > u64::MAX { u64::MAX as int } else { a + b },
{
    if a > u64::MAX - b {
        u64::MAX
    } else {
        a + b
    }
}

fn exec_stepped(p: FixedVec2, d: Direction, len: i64) -> (r: FixedVec2)
    requires
        in_range(p@),
        0 <= len <= 0x4000_0000,
    ensures
        r == stepped(p, d, len as int),
        r@ == (p.x@ + d.unit_x() * len, p.y@ + d.unit_y() * len),
{
    let u = d.to_int_vec2();
    assert(-0x4000_0000 <= u.x * len <= 0x4000_0000 && -0x4000_0000 <= u.y * len <= 0x4000_0000)
        by (nonlinear_arith)
        requires
            -1 <= u.x <= 1,
            -1 <= u.y <= 1,
            0 <= len <= 0x4000_0000,
    ;
    FixedVec2::from_bits(
        (p.x.bits as i64 + u.x as i64 * len) as i32,
        (p.y.bits as i64 + u.y as i64 * len) as i32,
    )
}

/// The question that the search for the first obstacle asks at each
/// length: whether the piece of that length from `start` collides.
pub open spec fn reach_question<F: Fn(FixedVec2, FixedVec2, usize) -> bool>(
    f: &F,
    start: FixedVec2,
    d: Direction,
    layer: usize,
) -> spec_fn(int) -> bool {
    |len: int| blocked(f, start, stepped(start, d, len), layer)
}

/// The length found by the search, shortened by one tick where it would
/// end off the even lattice.
pub open spec fn even_length(start: FixedVec2, d: Direction, len: int) -> int {
    if is_even_even(stepped(start, d, len)@) {
        len
    } else {
        len - 1
    }
}

/// Where a blocked move from `start` towards `end` stops: as far as a
/// search by halving finds the way clear, on the even lattice; nowhere
/// if that is no further than `start`.
pub open spec fn approach<F: Fn(FixedVec2, FixedVec2, usize) -> bool>(
    f: &F,
    start: FixedVec2,
    end: FixedVec2,
    layer: usize,
) -> Option<FixedVec2> {
    let dx = end.x@ - start.x@;
    let dy = end.y@ - start.y@;
    let d = direction_of(dx, dy);
    let len = even_length(
        start,
        d,
        bisect(0, chebyshev(dx, dy), reach_question(f, start, d, layer)),
    );
    if len > 0 {
        Some(stepped(start, d, len))
    } else {
        None
    }
}

/// Where a move from `start` towards `end` stops: at `end` when the
/// oracle lets it, else where `approach` says.
pub open spec fn clamped<F: Fn(FixedVec2, FixedVec2, usize) -> bool>(
    f: &F,
    start: FixedVec2,
    end: FixedVec2,
    layer: usize,
) -> Option<FixedVec2> {
    if blocked(f, start, end, layer) {
        approach(f, start, end, layer)
    } else {
        Some(end)
    }
}

/// The search for the first obstacle on a move stops within one tick of
/// it: the piece up to where it stops is clear unless it is empty, and
/// the piece one tick longer collides unless it is the whole move.
pub proof fn lemma_reach_is_tight<F: Fn(FixedVec2, FixedVec2, usize) -> bool>(
    f: &F,
    start: FixedVec2,
    end: FixedVec2,
    layer: usize,
)
    requires
        start != end,
    ensures
        ({
            let dx = end.x@ - start.x@;
            let dy = end.y@ - start.y@;
            let d = direction_of(dx, dy);
            let len = bisect(0, chebyshev(dx, dy), reach_question(f, start, d, layer));
            &&& 0 <= len < chebyshev(dx, dy)
            &&& (len == 0 || !blocked(f, start, stepped(start, d, len), layer))
            &&& (len + 1 == chebyshev(dx, dy) || blocked(
                f,
                start,
                stepped(start, d, len + 1),
                layer,
            ))
        }),
{
    let dx = end.x@ - start.x@;
    let dy = end.y@ - start.y@;
    let d = direction_of(dx, dy);
    lemma_bisect(0, chebyshev(dx, dy), reach_question(f, start, d, layer));
}

/// Whether a move from `a` to `b` goes in direction `d`, over at least
/// one tick.
pub open spec fn heads(a: FixedVec2, b: FixedVec2, d: Direction) -> bool {
    &&& a != b
    &&& aligned(b.x@ - a.x@, b.y@ - a.y@)
    &&& direction_of(b.x@ - a.x@, b.y@ - a.y@) == d
}

proof fn lemma_stepped(p: FixedVec2, d: Direction, len: int, m: int, q: FixedVec2)
    requires
        in_range(p@),
        in_range(q@),
        heads(p, q, d),
        m == chebyshev(q.x@ - p.x@, q.y@ - p.y@),
        0 <= len <= m,
    ensures
        in_range(stepped(p, d, len)@),
        stepped(p, d, len)@ == (p.x@ + d.unit_x() * len, p.y@ + d.unit_y() * len),
        len > 0 ==> heads(p, stepped(p, d, len), d),
        len == m ==> stepped(p, d, len) == q,
        len == 0 ==> stepped(p, d, len) == p,
        chebyshev(d.unit_x() * len, d.unit_y() * len) == len,
{
    lemma_direction_of_unit(q.x@ - p.x@, q.y@ - p.y@);
    if len > 0 {
        lemma_unit_direction(d, len);
    }
    let ux = d.unit_x();
    let uy = d.unit_y();
    assert(ux * len == if ux == 1 {
        len
    } else if ux == 0 {
        0
    } else {
        -len
    });
    assert(uy * len == if uy == 1 {
        len
    } else if uy == 0 {
        0
    } else {
        -len
    });
    assert(ux * m == if ux == 1 {
        m
    } else if ux == 0 {
        0
    } else {
        -m
    });
    assert(uy * m == if uy == 1 {
        m
    } else if uy == 0 {
        0
    } else {
        -m
    });
}

/// Whether a move from `a` towards `b` can end on the even lattice: the
/// coordinates of `a` are both even, or both odd with a diagonal move.
pub open spec fn can_leave(a: FixedVec2, b: FixedVec2) -> bool {
    is_even_even(a@) || (is_odd(a.x@) && is_odd(a.y@) && b.x@ != a.x@ && b.y@ != a.y@)
}

/// The parity of a point `len` ticks along `d` from `p`.
proof fn lemma_step_parity(p: FixedVec2, d: Direction, len: int)
    requires
        -0x6000_0000 <= p.x@ + d.unit_x() * len <= 0x6000_0000,
        -0x6000_0000 <= p.y@ + d.unit_y() * len <= 0x6000_0000,
    ensures
        stepped(p, d, len)@ == (p.x@ + d.unit_x() * len, p.y@ + d.unit_y() * len),
        d.unit_x() != 0 ==> (is_odd(stepped(p, d, len).x@) == (is_odd(p.x@) != is_odd(len))),
        d.unit_x() == 0 ==> stepped(p, d, len).x@ == p.x@,
        d.unit_y() != 0 ==> (is_odd(stepped(p, d, len).y@) == (is_odd(p.y@) != is_odd(len))),
        d.unit_y() == 0 ==> stepped(p, d, len).y@ == p.y@,
{
    let ux = d.unit_x();
    let uy = d.unit_y();
    assert(ux * len == if ux == 1 {
        len
    } else if ux == 0 {
        0
    } else {
        -len
    });
    assert(uy * len == if uy == 1 {
        len
    } else if uy == 0 {
        0
    } else {
        -len
    });
}

/// After the step back, a move that can end on the even lattice does.
proof fn lemma_even_length(p: FixedVec2, q: FixedVec2, d: Direction, lo: int, m: int)
    requires
        in_range(p@),
        in_range(q@),
        heads(p, q, d),
        m == chebyshev(q.x@ - p.x@, q.y@ - p.y@),
        0 <= lo < m,
        can_leave(p, q),
    ensures
        even_length(p, d, lo) == lo || even_length(p, d, lo) == lo - 1,
        even_length(p, d, lo) > 0 ==> is_even_even(stepped(p, d, even_length(p, d, lo))@),
        is_even_even(stepped(p, d, lo)@) == (stepped(p, d, lo).x@ % 2 == 0 && stepped(
            p,
            d,
            lo,
        ).y@ % 2 == 0),
{
    lemma_stepped(p, d, lo, m, q);
    lemma_step_parity(p, d, lo);
    lemma_direction_of_unit(q.x@ - p.x@, q.y@ - p.y@);
    if lo > 0 {
        lemma_stepped(p, d, lo - 1, m, q);
        lemma_step_parity(p, d, lo - 1);
    }
}

/// Under a geometric oracle the way to where a move stops is clear, and
/// it runs in the direction of the move.
pub proof fn lemma_clamped_is_clear<F: Fn(FixedVec2, FixedVec2, usize) -> bool>(
    f: &F,
    start: FixedVec2,
    end: FixedVec2,
    layer: usize,
)
    requires
        geometric(f),
        in_range(start@),
        in_range(end@),
        start != end,
        aligned(end.x@ - start.x@, end.y@ - start.y@),
        clamped(f, start, end, layer).is_some(),
    ensures
        !blocked(f, start, clamped(f, start, end, layer).unwrap(), layer),
        heads(
            start,
            clamped(f, start, end, layer).unwrap(),
            direction_of(end.x@ - start.x@, end.y@ - start.y@),
        ),
        in_range(clamped(f, start, end, layer).unwrap()@),
{
    let dx = end.x@ - start.x@;
    let dy = end.y@ - start.y@;
    let d = direction_of(dx, dy);
    let m = chebyshev(dx, dy);
    if blocked(f, start, end, layer) {
        lemma_reach_is_tight(f, start, end, layer);
        let lo = bisect(0, m, reach_question(f, start, d, layer));
        let len = even_length(start, d, lo);
        assert(len == lo || len == lo - 1);
        lemma_stepped(start, d, lo, m, end);
        lemma_stepped(start, d, len, m, end);
        if len != lo {
            let a = stepped(start, d, len);
            let b = stepped(start, d, lo);
            lemma_unit_direction(d, 1);
            assert(d.unit_x() * lo - d.unit_x() * len == d.unit_x() * 1) by (nonlinear_arith)
                requires
                    len == lo - 1,
            ;
            assert(d.unit_y() * lo - d.unit_y() * len == d.unit_y() * 1) by (nonlinear_arith)
                requires
                    len == lo - 1,
            ;
            assert(lies_between(start, a, b));
            lemma_parts(f, start, a, b, layer);
        }
    }
}

/// Direction and length of a move between two different aligned points.
fn heading(start: FixedVec2, end: FixedVec2) -> (r: (Direction, i64))
    requires
        in_range(start@),
        in_range(end@),
        start != end,
        aligned(end.x@ - start.x@, end.y@ - start.y@),
    ensures
        heads(start, end, r.0),
        r.1 == chebyshev(end.x@ - start.x@, end.y@ - start.y@),
        1 <= r.1 <= 0x4000_0000,
{
    let d = match Direction::from_points(start, end) {
        Ok(Some(d)) => d,
        _ => Direction::Up,
    };
    let dx: i64 = end.x.bits as i64 - start.x.bits as i64;
    let dy: i64 = end.y.bits as i64 - start.y.bits as i64;
    let ax = if dx < 0 { -dx } else { dx };
    let ay = if dy < 0 { -dy } else { dy };
    let m = if ax > ay { ax } else { ay };
    (d, m)
}

/// The point where a search that stopped at `lo` ticks ends, if any.
fn settle(start: FixedVec2, end: FixedVec2, d: Direction, m: i64, lo: i64) -> (r: Option<FixedVec2>)
    requires
        in_range(start@),
        in_range(end@),
        heads(start, end, d),
        m == chebyshev(end.x@ - start.x@, end.y@ - start.y@),
        0 <= lo < m,
        can_leave(start, end),
    ensures
        r == if even_length(start, d, lo as int) > 0 {
            Some(stepped(start, d, even_length(start, d, lo as int)))
        } else {
            None
        },
        r.is_some() ==> in_range(r.unwrap()@) && is_even_even(r.unwrap()@) && heads(
            start,
            r.unwrap(),
            d,
        ),
{
    proof {
        lemma_stepped(start, d, lo as int, m as int, end);
        if lo > 0 {
            lemma_stepped(start, d, lo - 1, m as int, end);
        }
        lemma_even_length(start, end, d, lo as int, m as int);
    }
    let found = exec_stepped(start, d, lo);
    let len = if !found.is_sum_even() || found.is_x_odd_y_odd() {
        lo - 1
    } else {
        lo
    };
    if len <= 0 {
        return None;
    }
    Some(exec_stepped(start, d, len))
}

fn search_reach<F: Fn(FixedVec2, FixedVec2, usize) -> bool>(
    f: &F,
    start: FixedVec2,
    end: FixedVec2,
    d: Direction,
    m: i64,
    layer: usize,
) -> (r: i64)
    requires
        trace_oracle(f),
        in_range(start@),
        in_range(end@),
        heads(start, end, d),
        m == chebyshev(end.x@ - start.x@, end.y@ - start.y@),
    ensures
        r == bisect(0, m as int, reach_question(f, start, d, layer)),
        0 <= r < m,
{
    let mut lo: i64 = 0;
    let mut hi: i64 = m;
    while lo + 1 < hi
        invariant
            trace_oracle(f),
            in_range(start@),
            in_range(end@),
            heads(start, end, d),
            m == chebyshev(end.x@ - start.x@, end.y@ - start.y@),
            0 <= lo < hi <= m,
            bisect(lo as int, hi as int, reach_question(f, start, d, layer)) == bisect(
                0,
                m as int,
                reach_question(f, start, d, layer),
            ),
        decreases hi - lo,
    {
        let mid = lo + (hi - lo) / 2;
        proof {
            lemma_stepped(start, d, mid as int, m as int, end);
        }
        let probe = exec_stepped(start, d, mid);
        let hit = ask(f, start, probe, layer);
        assert(hit == reach_question(f, start, d, layer)(mid as int));
        if hit {
            hi = mid;
        } else {
            lo = mid;
        }
    }
    lo
}

impl AStarModel {
    /// Whether the model can be searched: both pads on the even lattice
    /// and within the coordinate limit, and at least one layer.
    pub open spec fn valid(&self) -> bool {
        &&& in_range(self.start@)
        &&& in_range(self.end@)
        &&& is_even_even(self.start@)
        &&& is_even_even(self.end@)
        &&& self.num_layers >= 1
    }

    /// Whether `layer_index` belongs to `layers` on this board.
    pub fn in_layers(&self, layer_index: usize, layers: PadLayer) -> (r: bool)
        requires
            layer_index < self.num_layers,
            layers == PadLayer::Back ==> self.num_layers > 1,
        ensures
            r == layers.has(layer_index as int, self.num_layers as int),
    {
        layers.contains(layer_index, self.num_layers)
    }

    /// Searches by halving for the last length at which the piece from
    /// `start_position` towards `end_position` is clear, and steps back
    /// onto the even lattice.
    pub fn binary_approach_to_obstacles<F: Fn(FixedVec2, FixedVec2, usize) -> bool>(
        &self,
        check_collision_for_trace: &F,
        start_position: FixedVec2,
        end_position: FixedVec2,
        layer: usize,
    ) -> (r: Option<FixedVec2>)
        requires
            trace_oracle(check_collision_for_trace),
            in_range(start_position@),
            in_range(end_position@),
            start_position != end_position,
            aligned(
                end_position.x@ - start_position.x@,
                end_position.y@ - start_position.y@,
            ),
            can_leave(start_position, end_position),
        ensures
            r == approach(check_collision_for_trace, start_position, end_position, layer),
            r.is_some() ==> in_range(r.unwrap()@) && is_even_even(r.unwrap()@) && heads(
                start_position,
                r.unwrap(),
                direction_of(
                    end_position.x@ - start_position.x@,
                    end_position.y@ - start_position.y@,
                ),
            ),
    {
        let (d, m) = heading(start_position, end_position);
        let lo = search_reach(check_collision_for_trace, start_position, end_position, d, m, layer);
        settle(start_position, end_position, d, m, lo)
    }

    /// Where a move from `start_pos` towards `end_pos` stops: at
    /// `end_pos` when the oracle lets it, else at the first obstacle.
    pub fn clamp_by_collision<F: Fn(FixedVec2, FixedVec2, usize) -> bool>(
        &self,
        check_collision_for_trace: &F,
        start_pos: FixedVec2,
        end_pos: FixedVec2,
        layer: usize,
    ) -> (r: Option<FixedVec2>)
        requires
            trace_oracle(check_collision_for_trace),
            in_range(start_pos@),
            in_range(end_pos@),
            start_pos != end_pos,
            aligned(end_pos.x@ - start_pos.x@, end_pos.y@ - start_pos.y@),
            can_leave(start_pos, end_pos),
        ensures
            r == clamped(check_collision_for_trace, start_pos, end_pos, layer),
            r.is_some() ==> in_range(r.unwrap()@) && heads(
                start_pos,
                r.unwrap(),
                direction_of(end_pos.x@ - start_pos.x@, end_pos.y@ - start_pos.y@),
            ),
            r.is_some() && (is_even_even(end_pos@) || r != Some(end_pos)) ==> is_even_even(
                r.unwrap()@,
            ),
    {
        if ask(check_collision_for_trace, start_pos, end_pos, layer) {
            self.binary_approach_to_obstacles(check_collision_for_trace, start_pos, end_pos, layer)
        } else {
            Some(end_pos)
        }
    }

    /// The direction in which the goal lies from `position`, when it lies
    /// in one of the eight directions and `layer` is one of the layers on
    /// which the goal can be reached.
    pub fn is_aligned_with_end(&self, position: FixedVec2, layer: usize) -> (r: Option<Direction>)
        ensures
            r == self.end_alignment(position, layer),
    {
        if !self.end_layers.contains(layer, self.num_layers) {
            return None;
        }
        match Direction::from_points(position, self.end) {
            Ok(d) => d,
            Err(_) => None,
        }
    }

    /// The direction in which the goal lies from `position` on `layer`,
    /// if any.
    pub open spec fn end_alignment(&self, position: FixedVec2, layer: usize) -> Option<Direction> {
        if self.end_layers.has(layer as int, self.num_layers as int) && position != self.end
            && aligned(self.end.x@ - position.x@, self.end.y@ - position.y@) {
            Some(direction_of(self.end.x@ - position.x@, self.end.y@ - position.y@))
        } else {
            None
        }
    }
}

/// The directions of the lines through the goal that a move in direction
/// `d` is tested against: the two next to `d`, then the four axial ones.
pub open spec fn end_directions(d: Direction) -> Seq<Direction> {
    seq![
        d.rotated(7),
        d.rotated(1),
        Direction::Up,
        Direction::Down,
        Direction::Left,
        Direction::Right,
    ]
}

/// Where the move from `a` to `b` meets the line through `goal` along
/// `e`, unless that line runs along the move.
pub open spec fn end_crossing(a: FixedVec2, b: FixedVec2, goal: FixedVec2, e: Direction) -> Option<
    (int, int),
> {
    let d = direction_of(b.x@ - a.x@, b.y@ - a.y@);
    if e == d || e == d.rotated(4) {
        None
    } else {
        crossing(a@, b@, goal@, (goal.x@ + e.unit_x(), goal.y@ + e.unit_y()))
    }
}

/// The nearest to `a` of the crossings with the first `k` lines through
/// the goal; of two at the same distance, the first.
pub open spec fn nearest_crossing(a: FixedVec2, b: FixedVec2, goal: FixedVec2, k: nat) -> Option<
    (int, int),
>
    decreases k,
{
    if k == 0 {
        None
    } else {
        let d = direction_of(b.x@ - a.x@, b.y@ - a.y@);
        let before = nearest_crossing(a, b, goal, (k - 1) as nat);
        match end_crossing(a, b, goal, end_directions(d)[k - 1]) {
            None => before,
            Some(q) => match before {
                None => Some(q),
                Some(p) => if chebyshev(q.0 - a.x@, q.1 - a.y@) < chebyshev(
                    p.0 - a.x@,
                    p.1 - a.y@,
                ) {
                    Some(q)
                } else {
                    Some(p)
                },
            },
        }
    }
}

/// A point in the direction of a move from its start, and within the
/// extent of the move, lies on the move.
proof fn lemma_on_move(a: (int, int), b: (int, int), q: (int, int))
    requires
        a != b,
        a != q,
        aligned(b.0 - a.0, b.1 - a.1),
        aligned(q.0 - a.0, q.1 - a.1),
        direction_of(q.0 - a.0, q.1 - a.1) == direction_of(b.0 - a.0, b.1 - a.1),
        if b.0 != a.0 {
            between(q.0, a.0, b.0)
        } else {
            between(q.1, a.1, b.1)
        },
    ensures
        q == b || (aligned(b.0 - q.0, b.1 - q.1) && direction_of(b.0 - q.0, b.1 - q.1)
            == direction_of(b.0 - a.0, b.1 - a.1)),
{
}

/// Where a sloped move meets a vertical line through an even lattice
/// point: at that point or at a point with an odd coordinate sum.
proof fn lemma_meets_upright(a: (int, int), b: (int, int), goal: (int, int), uy: int, q: (int, int))
    requires
        b.0 != a.0,
        aligned(b.0 - a.0, b.1 - a.1),
        uy == 1 || uy == -1,
        is_even_even(goal),
        crossing(a, b, goal, (goal.0, goal.1 + uy)) == Some(q),
    ensures
        q == goal || is_odd(q.0 + q.1),
{
    assert(slope(goal.0 - goal.0, goal.1 + uy - goal.1).is_none());
    assert(intercept(goal, goal.0 - goal.0, goal.1 + uy - goal.1) == goal.0);
    assert(slope(b.0 - a.0, b.1 - a.1).is_some());
    assert(q.0 == goal.0);
    assert(between(q.1, goal.1, goal.1 + uy));
}

/// Where a move meets a sloped line, it does so within its own extent.
proof fn lemma_meets_sloped(a: (int, int), b: (int, int), g0: (int, int), g1: (int, int), q: (int, int))
    requires
        a != b,
        aligned(b.0 - a.0, b.1 - a.1),
        g1.0 != g0.0,
        crossing(a, b, g0, g1) == Some(q),
    ensures
        if b.0 != a.0 {
            between(q.0, a.0, b.0)
        } else {
            between(q.1, a.1, b.1)
        },
{
    assert(slope(g1.0 - g0.0, g1.1 - g0.1).is_some());
}

/// A crossing of a move with a line through the goal lies on the move,
/// if it lies in the direction of the move from its start, has an even
/// coordinate sum and is not the goal itself.
pub proof fn lemma_crossing_within(
    a: FixedVec2,
    b: FixedVec2,
    goal: FixedVec2,
    e: Direction,
    d: Direction,
    q: FixedVec2,
)
    requires
        heads(a, b, d),
        is_even_even(goal@),
        end_crossing(a, b, goal, e) == Some(q@),
        heads(a, q, d),
        !is_odd(q.x@ + q.y@),
        q != goal,
    ensures
        q == b || lies_between(a, q, b),
{
    let ux = e.unit_x();
    let uy = e.unit_y();
    let tip = (goal.x@ + ux, goal.y@ + uy);
    assert(crossing(a@, b@, goal@, tip) == Some(q@));
    if ux == 0 && b.x@ != a.x@ {
        lemma_meets_upright(a@, b@, goal@, uy, q@);
        assert(q@ == goal@);
        assert(false);
    } else if ux == 0 {
        assert(slope(b.x@ - a.x@, b.y@ - a.y@).is_none());
        assert(slope(tip.0 - goal.x@, tip.1 - goal.y@).is_none());
        assert(false);
    } else {
        lemma_meets_sloped(a@, b@, goal@, tip, q@);
        lemma_on_move(a@, b@, q@);
    }
}

/// The nearest crossing is a crossing with one of the lines.
pub proof fn lemma_nearest_is_crossing(a: FixedVec2, b: FixedVec2, goal: FixedVec2, k: nat)
    requires
        k <= 6,
        nearest_crossing(a, b, goal, k).is_some(),
    ensures
        exists|t: int|
            0 <= t < k && #[trigger] end_crossing(
                a,
                b,
                goal,
                end_directions(direction_of(b.x@ - a.x@, b.y@ - a.y@))[t],
            ) == nearest_crossing(a, b, goal, k),
    decreases k,
{
    let d = direction_of(b.x@ - a.x@, b.y@ - a.y@);
    if k > 0 {
        let before = nearest_crossing(a, b, goal, (k - 1) as nat);
        let here = end_crossing(a, b, goal, end_directions(d)[k - 1]);
        if nearest_crossing(a, b, goal, k) == here {
            assert(end_crossing(a, b, goal, end_directions(d)[k - 1]) == nearest_crossing(
                a,
                b,
                goal,
                k,
            ));
        } else {
            lemma_nearest_is_crossing(a, b, goal, (k - 1) as nat);
            let t = choose|t: int|
                0 <= t < k - 1 && #[trigger] end_crossing(a, b, goal, end_directions(d)[t])
                    == before;
            assert(end_crossing(a, b, goal, end_directions(d)[t]) == nearest_crossing(
                a,
                b,
                goal,
                k,
            ));
        }
    }
}

/// The coordinates of the nearest crossing fit a fixed-point number.
pub proof fn lemma_nearest_fits(a: FixedVec2, b: FixedVec2, goal: FixedVec2)
    requires
        in_range(goal@),
        nearest_crossing(a, b, goal, 6).is_some(),
    ensures
        crate::fixed_point::fits(nearest_crossing(a, b, goal, 6).unwrap().0),
        crate::fixed_point::fits(nearest_crossing(a, b, goal, 6).unwrap().1),
{
    let d = direction_of(b.x@ - a.x@, b.y@ - a.y@);
    lemma_nearest_is_crossing(a, b, goal, 6);
    let t = choose|t: int|
        0 <= t < 6 && #[trigger] end_crossing(a, b, goal, end_directions(d)[t])
            == nearest_crossing(a, b, goal, 6);
    let e = end_directions(d)[t];
    let tip = (goal.x@ + e.unit_x(), goal.y@ + e.unit_y());
    assert(crossing(a@, b@, goal@, tip).is_some());
    assert(tip.0 - goal.x@ == e.unit_x());
    assert(tip.1 - goal.y@ == e.unit_y());
}

/// The nearest crossing of a move with the lines through the goal lies
/// on the move, if it lies in the direction of the move from its start,
/// has an even coordinate sum and is not the goal itself.
pub proof fn lemma_nearest_within(a: FixedVec2, b: FixedVec2, goal: FixedVec2, d: Direction, q: FixedVec2)
    requires
        heads(a, b, d),
        is_even_even(goal@),
        nearest_crossing(a, b, goal, 6) == Some(q@),
        heads(a, q, d),
        !is_odd(q.x@ + q.y@),
        q != goal,
    ensures
        q == b || lies_between(a, q, b),
{
    lemma_nearest_is_crossing(a, b, goal, 6);
    let t = choose|t: int|
        0 <= t < 6 && #[trigger] end_crossing(a, b, goal, end_directions(d)[t])
            == nearest_crossing(a, b, goal, 6);
    lemma_crossing_within(a, b, goal, end_directions(d)[t], d, q);
}

fn exec_end_crossing(a: FixedVec2, b: FixedVec2, goal: FixedVec2, d: Direction, e: Direction) -> (r:
    Option<FixedVec2>)
    requires
        heads(a, b, d),
        in_range(goal@),
        is_even_even(goal@),
        !is_odd(a.x@ + a.y@),
    ensures
        match r {
            Some(q) => end_crossing(a, b, goal, e) == Some(q@),
            None => end_crossing(a, b, goal, e).is_none(),
        },
{
    if e == d || e == d.opposite() {
        return None;
    }
    let u = e.to_int_vec2();
    let tip = FixedVec2::from_bits(goal.x.bits + u.x, goal.y.bits + u.y);
    line_intersection_infinite(a, b, goal, tip)
}

fn exec_end_directions(d: Direction) -> (r: Vec<Direction>)
    ensures
        r@ == end_directions(d),
{
    let mut v: Vec<Direction> = Vec::new();
    v.push(d.left_45_dir());
    v.push(d.right_45_dir());
    v.push(Direction::Up);
    v.push(Direction::Down);
    v.push(Direction::Left);
    v.push(Direction::Right);
    assert(v@ =~= end_directions(d));
    v
}

impl AStarModel {
    /// The nearest point at which the move from `start_pos` to `end_pos`
    /// meets a line through the goal along which the goal could be
    /// reached; `None` on a layer from which the goal cannot be reached.
    pub fn get_intersection_with_end_alignments(
        &self,
        start_pos: FixedVec2,
        end_pos: FixedVec2,
        layer: usize,
    ) -> (r: Option<FixedVec2>)
        requires
            self.valid(),
            start_pos != end_pos,
            aligned(end_pos.x@ - start_pos.x@, end_pos.y@ - start_pos.y@),
            !is_odd(start_pos.x@ + start_pos.y@),
        ensures
            match r {
                Some(q) => self.end_layers.has(layer as int, self.num_layers as int)
                    && nearest_crossing(start_pos, end_pos, self.end, 6) == Some(q@),
                None => !self.end_layers.has(layer as int, self.num_layers as int)
                    || nearest_crossing(start_pos, end_pos, self.end, 6).is_none(),
            },
    {
        if !self.end_layers.contains(layer, self.num_layers) {
            return None;
        }
        let d = match Direction::from_points(start_pos, end_pos) {
            Ok(Some(d)) => d,
            _ => Direction::Up,
        };
        let lines = exec_end_directions(d);
        let mut best: Option<FixedVec2> = None;
        let mut k: usize = 0;
        while k < 6
            invariant
                self.valid(),
                heads(start_pos, end_pos, d),
                !is_odd(start_pos.x@ + start_pos.y@),
                lines@ == end_directions(d),
                k <= 6,
                match best {
                    Some(q) => nearest_crossing(start_pos, end_pos, self.end, k as nat) == Some(q@),
                    None => nearest_crossing(start_pos, end_pos, self.end, k as nat).is_none(),
                },
            decreases 6 - k,
        {
            let found = exec_end_crossing(start_pos, end_pos, self.end, d, lines[k]);
            best = nearer(start_pos, best, found);
            k = k + 1;
        }
        best
    }
}

/// The nearer to `a` of two optional points; the first of two at the
/// same distance.
fn nearer(a: FixedVec2, before: Option<FixedVec2>, found: Option<FixedVec2>) -> (r: Option<
    FixedVec2,
>)
    ensures
        r == match found {
            None => before,
            Some(q) => match before {
                None => Some(q),
                Some(p) => if chebyshev(q.x@ - a.x@, q.y@ - a.y@) < chebyshev(
                    p.x@ - a.x@,
                    p.y@ - a.y@,
                ) {
                    Some(q)
                } else {
                    Some(p)
                },
            },
        },
{
    match found {
        None => before,
        Some(q) => match before {
            None => Some(q),
            Some(p) => {
                let dq = chebyshev_distance(
                    q.x.bits as i64 - a.x.bits as i64,
                    q.y.bits as i64 - a.y.bits as i64,
                );
                let dp = chebyshev_distance(
                    p.x.bits as i64 - a.x.bits as i64,
                    p.y.bits as i64 - a.y.bits as i64,
                );
                if dq < dp {
                    Some(q)
                } else {
                    Some(p)
                }
            },
        },
    }
}

/// Whether a step of two ticks from `p` in direction `d` collides.
pub open spec fn nudge_blocked<F: Fn(FixedVec2, FixedVec2, usize) -> bool>(
    f: &F,
    p: FixedVec2,
    layer: usize,
    d: Direction,
) -> bool {
    blocked(f, p, stepped(p, d, 2), layer)
}

/// Whether `d` runs along an obstacle at `p`: the way ahead is clear and
/// one side is blocked both at an eighth and at a quarter turn.
pub open spec fn radial<F: Fn(FixedVec2, FixedVec2, usize) -> bool>(
    f: &F,
    p: FixedVec2,
    layer: usize,
    d: Direction,
) -> bool {
    &&& !nudge_blocked(f, p, layer, d)
    &&& ((nudge_blocked(f, p, layer, d.rotated(6)) && nudge_blocked(f, p, layer, d.rotated(7)))
        || (nudge_blocked(f, p, layer, d.rotated(2)) && nudge_blocked(f, p, layer, d.rotated(1))))
}

/// The eight directions in the order in which the search tries them.
pub open spec fn direction_order() -> Seq<Direction> {
    seq![
        Direction::Up,
        Direction::Down,
        Direction::Left,
        Direction::Right,
        Direction::TopRight,
        Direction::TopLeft,
        Direction::BottomRight,
        Direction::BottomLeft,
    ]
}

/// Those of the first `k` directions that run along an obstacle at `p`.
pub open spec fn radial_list<F: Fn(FixedVec2, FixedVec2, usize) -> bool>(
    f: &F,
    p: FixedVec2,
    layer: usize,
    k: nat,
) -> Seq<Direction>
    decreases k,
{
    if k == 0 {
        Seq::empty()
    } else if radial(f, p, layer, direction_order()[k - 1]) {
        radial_list(f, p, layer, (k - 1) as nat).push(direction_order()[k - 1])
    } else {
        radial_list(f, p, layer, (k - 1) as nat)
    }
}

fn ask_nudge<F: Fn(FixedVec2, FixedVec2, usize) -> bool>(
    f: &F,
    p: FixedVec2,
    layer: usize,
    d: Direction,
) -> (r: bool)
    requires
        trace_oracle(f),
        in_range(p@),
    ensures
        r == nudge_blocked(f, p, layer, d),
{
    let q = exec_stepped(p, d, 2);
    proof {
        lemma_unit_direction(d, 2);
    }
    ask(f, p, q, layer)
}

fn ask_radial<F: Fn(FixedVec2, FixedVec2, usize) -> bool>(
    f: &F,
    p: FixedVec2,
    layer: usize,
    d: Direction,
) -> (r: bool)
    requires
        trace_oracle(f),
        in_range(p@),
    ensures
        r == radial(f, p, layer, d),
{
    if ask_nudge(f, p, layer, d) {
        return false;
    }
    if ask_nudge(f, p, layer, d.left_90_dir()) && ask_nudge(f, p, layer, d.left_45_dir()) {
        return true;
    }
    ask_nudge(f, p, layer, d.right_90_dir()) && ask_nudge(f, p, layer, d.right_45_dir())
}

impl AStarModel {
    /// The directions that run along an obstacle at `position`.
    pub fn radial_directions_wrt_obstacles<F: Fn(FixedVec2, FixedVec2, usize) -> bool>(
        &self,
        check_collision_for_trace: &F,
        position: &FixedVec2,
        layer: usize,
    ) -> (r: Vec<Direction>)
        requires
            trace_oracle(check_collision_for_trace),
            in_range(position@),
        ensures
            r@ == radial_list(check_collision_for_trace, *position, layer, 8),
    {
        let all = Direction::all_directions();
        assert(all@ == direction_order());
        let mut directions: Vec<Direction> = Vec::new();
        let mut k: usize = 0;
        while k < 8
            invariant
                trace_oracle(check_collision_for_trace),
                in_range(position@),
                all@ == direction_order(),
                k <= 8,
                directions@ == radial_list(check_collision_for_trace, *position, layer, k as nat),
            decreases 8 - k,
        {
            if ask_radial(check_collision_for_trace, *position, layer, all[k]) {
                directions.push(all[k]);
            }
            k = k + 1;
        }
        directions
    }
}

} // verus!
