//! Trace paths: anchors, and the segments, vias and length derived from
//! them.

use vstd::prelude::*;
use crate::direction::{aligned, direction_of, Direction};
use crate::fixed_point::FixedPoint;
use crate::oracle::{ask_overlap, overlap_oracle, overlaps};
use crate::vec2::FixedVec2;

verus! {

/// A straight piece of copper between two points on one layer.
#[derive(Clone, Copy, Debug, PartialEq, Eq, Structural)]
pub struct TraceSegment {
    pub start: FixedVec2,
    pub end: FixedVec2,
    pub width: FixedPoint,
    pub clearance: FixedPoint,
    pub layer: usize,
}

/// A plated hole joining the layers `min_layer..=max_layer` at a point.
#[derive(Clone, Copy, Debug, PartialEq, Eq, Structural)]
pub struct Via {
    pub position: FixedVec2,
    pub diameter: FixedPoint,
    pub clearance: FixedPoint,
    pub min_layer: usize,
    pub max_layer: usize,
}

/// A turning point of a path. The path arrives on `start_layer` and
/// leaves on `end_layer`.
#[derive(Clone, Copy, Debug, PartialEq, Eq, Structural, PartialOrd, Ord)]
pub struct TraceAnchor {
    pub position: FixedVec2,
    pub start_layer: usize,
    pub end_layer: usize,
}

/// The turning points of a path, from its start to its end.
#[derive(Clone, Debug)]
pub struct TraceAnchors(pub Vec<TraceAnchor>);

/// Length of a path in ticks, split by the kind of ground covered. The
/// Euclidean length is `straight + diagonal * sqrt(2)` ticks.
#[derive(Clone, Copy, Debug, PartialEq, Eq, Structural)]
pub struct PathLength {
    /// Ticks covered along one axis only.
    pub straight: u128,
    /// Ticks covered along both axes at once.
    pub diagonal: u128,
}

/// A routed connection: its anchors and what follows from them.
#[derive(Clone, Debug)]
pub struct TracePath {
    pub anchors: TraceAnchors,
    pub segments: Vec<TraceSegment>,
    pub vias: Vec<Via>,
    pub total_length: PathLength,
}

/// What a path holds, as plain sequences.
pub struct PathView {
    pub anchors: Seq<TraceAnchor>,
    pub segments: Seq<TraceSegment>,
    pub vias: Seq<Via>,
    pub total_length: PathLength,
}

impl View for TracePath {
    type V = PathView;

    open spec fn view(&self) -> PathView {
        PathView {
            anchors: self.anchors@,
            segments: self.segments@,
            vias: self.vias@,
            total_length: self.total_length,
        }
    }
}

impl View for TraceAnchors {
    type V = Seq<TraceAnchor>;

    open spec fn view(&self) -> Seq<TraceAnchor> {
        self.0@
    }
}

/// Absolute value.
pub open spec fn abs(v: int) -> int {
    if v < 0 { -v } else { v }
}

/// Ticks of a displacement covered along both axes at once.
pub open spec fn diagonal_ticks(dx: int, dy: int) -> nat {
    (if abs(dx) < abs(dy) { abs(dx) } else { abs(dy) }) as nat
}

/// Ticks of a displacement covered along one axis only.
pub open spec fn straight_ticks(dx: int, dy: int) -> nat {
    (if abs(dx) < abs(dy) { abs(dy) - abs(dx) } else { abs(dx) - abs(dy) }) as nat
}

/// The segment that leaves anchor `i`.
pub open spec fn segment_at(
    anchors: Seq<TraceAnchor>,
    i: int,
    width: FixedPoint,
    clearance: FixedPoint,
) -> TraceSegment {
    TraceSegment {
        start: anchors[i].position,
        end: anchors[i + 1].position,
        width,
        clearance,
        layer: anchors[i].end_layer,
    }
}

/// The segments between consecutive anchors.
pub open spec fn segments_of(
    anchors: Seq<TraceAnchor>,
    width: FixedPoint,
    clearance: FixedPoint,
) -> Seq<TraceSegment> {
    Seq::new(
        if anchors.len() == 0 { 0nat } else { (anchors.len() - 1) as nat },
        |i: int| segment_at(anchors, i, width, clearance),
    )
}

/// The via that an anchor with two different layers stands for.
pub open spec fn via_at(a: TraceAnchor, diameter: FixedPoint, clearance: FixedPoint) -> Via {
    Via {
        position: a.position,
        diameter,
        clearance,
        min_layer: if a.start_layer < a.end_layer { a.start_layer } else { a.end_layer },
        max_layer: if a.start_layer < a.end_layer { a.end_layer } else { a.start_layer },
    }
}

/// One via for each anchor that changes layer, in path order.
pub open spec fn vias_of(
    anchors: Seq<TraceAnchor>,
    diameter: FixedPoint,
    clearance: FixedPoint,
) -> Seq<Via>
    decreases anchors.len(),
{
    if anchors.len() == 0 {
        Seq::empty()
    } else {
        let rest = vias_of(anchors.drop_last(), diameter, clearance);
        let a = anchors.last();
        if a.start_layer != a.end_layer {
            rest.push(via_at(a, diameter, clearance))
        } else {
            rest
        }
    }
}

/// Straight ticks of the first `n` segments.
pub open spec fn straight_of(anchors: Seq<TraceAnchor>, n: nat) -> nat
    decreases n,
{
    if n == 0 {
        0
    } else {
        let a = anchors[n - 1].position;
        let b = anchors[n as int].position;
        straight_of(anchors, (n - 1) as nat) + straight_ticks(b.x@ - a.x@, b.y@ - a.y@)
    }
}

/// Diagonal ticks of the first `n` segments.
pub open spec fn diagonal_of(anchors: Seq<TraceAnchor>, n: nat) -> nat
    decreases n,
{
    if n == 0 {
        0
    } else {
        let a = anchors[n - 1].position;
        let b = anchors[n as int].position;
        diagonal_of(anchors, (n - 1) as nat) + diagonal_ticks(b.x@ - a.x@, b.y@ - a.y@)
    }
}

/// Whether each anchor leaves on the layer on which the next one arrives.
pub open spec fn layers_linked(anchors: Seq<TraceAnchor>) -> bool {
    forall|i: int|
        0 <= i < anchors.len() - 1 ==> (#[trigger] anchors[i]).end_layer == anchors[i
            + 1].start_layer
}

proof fn lemma_length_bound(anchors: Seq<TraceAnchor>, n: nat)
    requires
        n < anchors.len(),
    ensures
        straight_of(anchors, n) <= n * 0x1_0000_0000,
        diagonal_of(anchors, n) <= n * 0x1_0000_0000,
    decreases n,
{
    if n > 0 {
        lemma_length_bound(anchors, (n - 1) as nat);
    }
}

/// The cost of a length: 65536 for each straight tick and 92682 for each
/// diagonal one; the largest cost where the sum does not fit.
pub open spec fn path_cost(len: PathLength) -> int {
    let exact = len.straight * 65536 + len.diagonal * 92682;
    if exact > u128::MAX {
        u128::MAX as int
    } else {
        exact
    }
}

/// Whether two segments collide: they lie on one layer, and the copper
/// of one comes within the clearance of the other.
pub open spec fn segments_collide<H: Fn(&TraceSegment, &TraceSegment) -> bool>(
    h: &H,
    a: TraceSegment,
    b: TraceSegment,
) -> bool {
    a.layer == b.layer && (overlaps(h, a, b) || overlaps(h, b, a))
}

/// Whether some segment of `a` collides with some segment of `b`.
pub open spec fn paths_collide<H: Fn(&TraceSegment, &TraceSegment) -> bool>(
    h: &H,
    a: Seq<TraceSegment>,
    b: Seq<TraceSegment>,
) -> bool {
    exists|i: int, j: int|
        0 <= i < a.len() && 0 <= j < b.len() && #[trigger] segments_collide(h, a[i], b[j])
}

/// Collision of segments does not depend on their order.
pub proof fn lemma_segments_collide_symmetric<H: Fn(&TraceSegment, &TraceSegment) -> bool>(
    h: &H,
    a: TraceSegment,
    b: TraceSegment,
)
    ensures
        segments_collide(h, a, b) == segments_collide(h, b, a),
{
}

/// Collision of paths does not depend on their order.
pub proof fn lemma_paths_collide_symmetric<H: Fn(&TraceSegment, &TraceSegment) -> bool>(
    h: &H,
    a: Seq<TraceSegment>,
    b: Seq<TraceSegment>,
)
    ensures
        paths_collide(h, a, b) == paths_collide(h, b, a),
{
    if paths_collide(h, a, b) {
        let (i, j) = choose|i: int, j: int|
            0 <= i < a.len() && 0 <= j < b.len() && #[trigger] segments_collide(h, a[i], b[j]);
        assert(segments_collide(h, b[j], a[i]));
    }
    if paths_collide(h, b, a) {
        let (j, i) = choose|j: int, i: int|
            0 <= j < b.len() && 0 <= i < a.len() && #[trigger] segments_collide(h, b[j], a[i]);
        assert(segments_collide(h, a[i], b[j]));
    }
}

impl TraceSegment {
    /// Whether this segment and `other` collide.
    pub fn collides_with<H: Fn(&TraceSegment, &TraceSegment) -> bool>(
        &self,
        other: &TraceSegment,
        overlap: &H,
    ) -> (r: bool)
        requires
            overlap_oracle(overlap),
        ensures
            r == segments_collide(overlap, *self, *other),
    {
        if self.layer != other.layer {
            return false;
        }
        ask_overlap(overlap, self, other) || ask_overlap(overlap, other, self)
    }

    /// The direction in which the segment runs.
    pub fn get_direction(&self) -> (r: Direction)
        requires
            self.start != self.end,
            aligned(self.end.x@ - self.start.x@, self.end.y@ - self.start.y@),
        ensures
            r == direction_of(self.end.x@ - self.start.x@, self.end.y@ - self.start.y@),
    {
        match Direction::from_points(self.start, self.end) {
            Ok(Some(d)) => d,
            _ => Direction::Up,
        }
    }
}

/// A copy of a list of anchors.
pub fn duplicate_anchors(v: &Vec<TraceAnchor>) -> (r: Vec<TraceAnchor>)
    ensures
        r@ == v@,
{
    let mut r: Vec<TraceAnchor> = Vec::new();
    let mut k: usize = 0;
    while k < v.len()
        invariant
            k <= v@.len(),
            r@ == v@.take(k as int),
        decreases v@.len() - k,
    {
        r.push(v[k]);
        assert(v@.take(k + 1) =~= v@.take(k as int).push(v@[k as int]));
        k = k + 1;
    }
    assert(v@.take(v@.len() as int) =~= v@);
    r
}

fn copy_segments(v: &Vec<TraceSegment>) -> (r: Vec<TraceSegment>)
    ensures
        r@ == v@,
{
    let mut r: Vec<TraceSegment> = Vec::new();
    let mut k: usize = 0;
    while k < v.len()
        invariant
            k <= v@.len(),
            r@ == v@.take(k as int),
        decreases v@.len() - k,
    {
        r.push(v[k]);
        assert(v@.take(k + 1) =~= v@.take(k as int).push(v@[k as int]));
        k = k + 1;
    }
    assert(v@.take(v@.len() as int) =~= v@);
    r
}

fn copy_vias(v: &Vec<Via>) -> (r: Vec<Via>)
    ensures
        r@ == v@,
{
    let mut r: Vec<Via> = Vec::new();
    let mut k: usize = 0;
    while k < v.len()
        invariant
            k <= v@.len(),
            r@ == v@.take(k as int),
        decreases v@.len() - k,
    {
        r.push(v[k]);
        assert(v@.take(k + 1) =~= v@.take(k as int).push(v@[k as int]));
        k = k + 1;
    }
    assert(v@.take(v@.len() as int) =~= v@);
    r
}

impl TracePath {
    /// A copy of the path.
    pub fn duplicate(&self) -> (r: TracePath)
        ensures
            r@ == self@,
    {
        TracePath {
            anchors: TraceAnchors(duplicate_anchors(&self.anchors.0)),
            segments: copy_segments(&self.segments),
            vias: copy_vias(&self.vias),
            total_length: self.total_length,
        }
    }

    /// Whether some segment of this path collides with some segment of
    /// `other`.
    pub fn collides_with<H: Fn(&TraceSegment, &TraceSegment) -> bool>(
        &self,
        other: &TracePath,
        overlap: &H,
    ) -> (r: bool)
        requires
            overlap_oracle(overlap),
        ensures
            r == paths_collide(overlap, self.segments@, other.segments@),
    {
        let mut i: usize = 0;
        while i < self.segments.len()
            invariant
                overlap_oracle(overlap),
                i <= self.segments@.len(),
                forall|p: int, q: int|
                    0 <= p < i && 0 <= q < other.segments@.len() ==> !#[trigger] segments_collide(
                        overlap,
                        self.segments@[p],
                        other.segments@[q],
                    ),
            decreases self.segments@.len() - i,
        {
            let mut j: usize = 0;
            while j < other.segments.len()
                invariant
                    overlap_oracle(overlap),
                    i < self.segments@.len(),
                    j <= other.segments@.len(),
                    forall|p: int, q: int|
                        0 <= p < i && 0 <= q < other.segments@.len()
                            ==> !#[trigger] segments_collide(
                            overlap,
                            self.segments@[p],
                            other.segments@[q],
                        ),
                    forall|q: int|
                        0 <= q < j ==> !#[trigger] segments_collide(
                            overlap,
                            self.segments@[i as int],
                            other.segments@[q],
                        ),
                decreases other.segments@.len() - j,
            {
                if self.segments[i].collides_with(&other.segments[j], overlap) {
                    assert(segments_collide(
                        overlap,
                        self.segments@[i as int],
                        other.segments@[j as int],
                    ));
                    return true;
                }
                j = j + 1;
            }
            i = i + 1;
        }
        false
    }

    /// The cost by which paths are ordered: straight and diagonal ticks
    /// weighed as the search weighs them; the largest cost where that
    /// does not fit.
    pub fn cost(&self) -> (r: u128)
        ensures
            r == path_cost(self.total_length),
    {
        let straight = match self.total_length.straight.checked_mul(65536) {
            Some(v) => v,
            None => {
                return u128::MAX;
            },
        };
        let diagonal = match self.total_length.diagonal.checked_mul(92682) {
            Some(v) => v,
            None => {
                return u128::MAX;
            },
        };
        match straight.checked_add(diagonal) {
            Some(v) => v,
            None => u128::MAX,
        }
    }

    /// Derives segments, vias and length from a non-empty list of
    /// anchors and keeps the anchors as they are.
    pub fn from_anchors(
        anchors: TraceAnchors,
        trace_width: FixedPoint,
        trace_clearance: FixedPoint,
        via_diameter: FixedPoint,
    ) -> (r: TracePath)
        requires
            anchors@.len() >= 1,
        ensures
            r.anchors@ == anchors@,
            r.segments@ == segments_of(anchors@, trace_width, trace_clearance),
            r.vias@ == vias_of(anchors@, via_diameter, trace_clearance),
            r.total_length.straight == straight_of(anchors@, (anchors@.len() - 1) as nat),
            r.total_length.diagonal == diagonal_of(anchors@, (anchors@.len() - 1) as nat),
    {
        let n = anchors.0.len();
        let mut segments: Vec<TraceSegment> = Vec::new();
        let mut straight: u128 = 0;
        let mut diagonal: u128 = 0;
        let mut i: usize = 0;
        while i < n - 1
            invariant
                n == anchors@.len(),
                n >= 1,
                i <= n - 1,
                segments@.len() == i,
                forall|k: int|
                    0 <= k < i ==> segments@[k] == segment_at(
                        anchors@,
                        k,
                        trace_width,
                        trace_clearance,
                    ),
                straight == straight_of(anchors@, i as nat),
                diagonal == diagonal_of(anchors@, i as nat),
            decreases n - 1 - i,
        {
            let a = anchors.0[i];
            let b = anchors.0[i + 1];
            segments.push(
                TraceSegment {
                    start: a.position,
                    end: b.position,
                    width: trace_width,
                    clearance: trace_clearance,
                    layer: a.end_layer,
                },
            );
            let dx: i64 = b.position.x.bits as i64 - a.position.x.bits as i64;
            let dy: i64 = b.position.y.bits as i64 - a.position.y.bits as i64;
            let ax: u64 = if dx < 0 { (-dx) as u64 } else { dx as u64 };
            let ay: u64 = if dy < 0 { (-dy) as u64 } else { dy as u64 };
            proof {
                lemma_length_bound(anchors@, i as nat);
                assert(i * 0x1_0000_0000 <= 0x1_0000_0000_0000_0000 * 0x1_0000_0000)
                    by (nonlinear_arith)
                    requires
                        i <= 0x1_0000_0000_0000_0000,
                ;
            }
            if ax < ay {
                straight = straight + (ay - ax) as u128;
                diagonal = diagonal + ax as u128;
            } else {
                straight = straight + (ax - ay) as u128;
                diagonal = diagonal + ay as u128;
            }
            i = i + 1;
        }
        let mut vias: Vec<Via> = Vec::new();
        let mut j: usize = 0;
        while j < n
            invariant
                n == anchors@.len(),
                j <= n,
                vias@ == vias_of(anchors@.take(j as int), via_diameter, trace_clearance),
            decreases n - j,
        {
            let a = anchors.0[j];
            proof {
                assert(anchors@.take(j + 1).drop_last() =~= anchors@.take(j as int));
                assert(anchors@.take(j + 1).last() == a);
            }
            if a.start_layer != a.end_layer {
                let (lo, hi) = if a.start_layer < a.end_layer {
                    (a.start_layer, a.end_layer)
                } else {
                    (a.end_layer, a.start_layer)
                };
                vias.push(
                    Via {
                        position: a.position,
                        diameter: via_diameter,
                        clearance: trace_clearance,
                        min_layer: lo,
                        max_layer: hi,
                    },
                );
            }
            j = j + 1;
        }
        proof {
            assert(anchors@.take(n as int) =~= anchors@);
            assert(segments@ =~= segments_of(anchors@, trace_width, trace_clearance));
        }
        TracePath { anchors, segments, vias, total_length: PathLength { straight, diagonal } }
    }
}

} // verus!
