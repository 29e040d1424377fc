//! Collision oracles: caller-supplied tests that say whether a piece of
//! copper would touch an obstacle.

use vstd::prelude::*;
use crate::direction::{aligned, direction_of};
use crate::trace_path::TraceSegment;
use crate::vec2::FixedVec2;

verus! {

/// Whether `f` can be asked about every non-empty segment on every layer
/// and gives each question a single answer.
pub open spec fn trace_oracle<F: Fn(FixedVec2, FixedVec2, usize) -> bool>(f: &F) -> bool {
    &&& forall|a: FixedVec2, b: FixedVec2, layer: usize|
        a != b ==> call_requires(f, (a, b, layer))
    &&& forall|a: FixedVec2, b: FixedVec2, layer: usize|
        !(call_ensures(f, (a, b, layer), true) && call_ensures(f, (a, b, layer), false))
}

/// Whether the oracle reports a collision for the segment from `a` to `b`
/// on `layer`.
pub open spec fn blocked<F: Fn(FixedVec2, FixedVec2, usize) -> bool>(
    f: &F,
    a: FixedVec2,
    b: FixedVec2,
    layer: usize,
) -> bool {
    call_ensures(f, (a, b, layer), true)
}

/// Whether the oracle reports the segment from `a` to `b` on `layer` free
/// of collisions.
pub open spec fn clear<F: Fn(FixedVec2, FixedVec2, usize) -> bool>(
    f: &F,
    a: FixedVec2,
    b: FixedVec2,
    layer: usize,
) -> bool {
    call_ensures(f, (a, b, layer), false)
}

/// Whether `b` lies on the straight way from `a` to `c`, along one of the
/// eight directions, and is neither of its ends.
pub open spec fn lies_between(a: FixedVec2, b: FixedVec2, c: FixedVec2) -> bool {
    &&& a != b
    &&& b != c
    &&& aligned(b.x@ - a.x@, b.y@ - a.y@)
    &&& aligned(c.x@ - b.x@, c.y@ - b.y@)
    &&& direction_of(b.x@ - a.x@, b.y@ - a.y@) == direction_of(c.x@ - b.x@, c.y@ - b.y@)
}

/// Whether `b` lies on the straight way from `a` to `c`, the ends
/// included.
pub open spec fn lies_within(a: FixedVec2, b: FixedVec2, c: FixedVec2) -> bool {
    b == a || b == c || lies_between(a, b, c)
}

/// Whether `f` answers as a test on the copper itself would: a segment
/// collides whichever way it is walked, and a straight way collides
/// exactly when one of the two parts does into which a point on it
/// divides it.
pub open spec fn geometric<F: Fn(FixedVec2, FixedVec2, usize) -> bool>(f: &F) -> bool {
    &&& forall|a: FixedVec2, b: FixedVec2, layer: usize| #[trigger]
        blocked(f, a, b, layer) == blocked(f, b, a, layer)
    &&& forall|a: FixedVec2, b: FixedVec2, c: FixedVec2, layer: usize|
        #![trigger lies_between(a, b, c), blocked(f, a, c, layer)]
        lies_between(a, b, c) ==> (blocked(f, a, c, layer) == (blocked(f, a, b, layer) || blocked(
            f,
            b,
            c,
            layer,
        )))
}

/// Under a geometric oracle a straight way is clear exactly when both of
/// its parts are.
pub proof fn lemma_parts<F: Fn(FixedVec2, FixedVec2, usize) -> bool>(
    f: &F,
    a: FixedVec2,
    b: FixedVec2,
    c: FixedVec2,
    layer: usize,
)
    requires
        geometric(f),
        lies_between(a, b, c),
    ensures
        blocked(f, a, c, layer) == (blocked(f, a, b, layer) || blocked(f, b, c, layer)),
{
}

/// Whether `f` can be asked about a via at every point on every layer and
/// gives each question a single answer.
pub open spec fn via_oracle<G: Fn(FixedVec2, usize) -> bool>(g: &G) -> bool {
    &&& forall|p: FixedVec2, layer: usize| call_requires(g, (p, layer))
    &&& forall|p: FixedVec2, layer: usize|
        !(call_ensures(g, (p, layer), true) && call_ensures(g, (p, layer), false))
}

/// Whether the oracle reports a collision for a via at `p` on `layer`.
pub open spec fn via_blocked<G: Fn(FixedVec2, usize) -> bool>(
    g: &G,
    p: FixedVec2,
    layer: usize,
) -> bool {
    call_ensures(g, (p, layer), true)
}

/// Asks the oracle about one segment.
pub fn ask<F: Fn(FixedVec2, FixedVec2, usize) -> bool>(
    f: &F,
    a: FixedVec2,
    b: FixedVec2,
    layer: usize,
) -> (r: bool)
    requires
        trace_oracle(f),
        a != b,
    ensures
        r == blocked(f, a, b, layer),
        r == !clear(f, a, b, layer),
{
    f(a, b, layer)
}

/// Asks the oracle about one via.
pub fn ask_via<G: Fn(FixedVec2, usize) -> bool>(g: &G, p: FixedVec2, layer: usize) -> (r: bool)
    requires
        via_oracle(g),
    ensures
        r == via_blocked(g, p, layer),
{
    g(p, layer)
}

/// The length at which a search by halving stops between `lo` and `hi`:
/// the middle replaces the upper end where `pred` holds there, and the
/// lower end where it does not, until the ends are one tick apart.
pub open spec fn bisect(lo: int, hi: int, pred: spec_fn(int) -> bool) -> int
    decreases hi - lo,
{
    if lo + 1 < hi {
        let mid = lo + (hi - lo) / 2;
        if pred(mid) {
            bisect(lo, mid, pred)
        } else {
            bisect(mid, hi, pred)
        }
    } else {
        lo
    }
}

/// The result of a search by halving lies in the searched range; `pred`
/// fails there unless it is the lower end, and holds one tick above it
/// unless that is the upper end.
pub proof fn lemma_bisect(lo: int, hi: int, pred: spec_fn(int) -> bool)
    requires
        lo < hi,
    ensures
        lo <= bisect(lo, hi, pred) < hi,
        bisect(lo, hi, pred) == lo || !pred(bisect(lo, hi, pred)),
        bisect(lo, hi, pred) + 1 == hi || pred(bisect(lo, hi, pred) + 1),
    decreases hi - lo,
{
    if lo + 1 < hi {
        let mid = lo + (hi - lo) / 2;
        if pred(mid) {
            lemma_bisect(lo, mid, pred);
        } else {
            lemma_bisect(mid, hi, pred);
        }
    }
}


/// Whether `h` can be asked about every pair of segments and gives each
/// question a single answer. The question is whether the copper of the
/// first segment comes within the clearance of the second.
pub open spec fn overlap_oracle<H: Fn(&TraceSegment, &TraceSegment) -> bool>(h: &H) -> bool {
    &&& forall|a: &TraceSegment, b: &TraceSegment| call_requires(h, (a, b))
    &&& forall|a: &TraceSegment, b: &TraceSegment|
        !(call_ensures(h, (a, b), true) && call_ensures(h, (a, b), false))
}

/// Whether the oracle reports that the copper of `a` comes within the
/// clearance of `b`.
pub open spec fn overlaps<H: Fn(&TraceSegment, &TraceSegment) -> bool>(
    h: &H,
    a: TraceSegment,
    b: TraceSegment,
) -> bool {
    call_ensures(h, (&a, &b), true)
}

/// Asks the oracle about one pair of segments.
pub fn ask_overlap<H: Fn(&TraceSegment, &TraceSegment) -> bool>(
    h: &H,
    a: &TraceSegment,
    b: &TraceSegment,
) -> (r: bool)
    requires
        overlap_oracle(h),
    ensures
        r == overlaps(h, *a, *b),
{
    h(a, b)
}

} // verus!
