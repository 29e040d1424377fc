//! Rewrites that shorten a path of anchors and keep its endpoints and its
//! changes of layer.

use vstd::prelude::*;
use crate::direction::{
    aligned, chebyshev, chebyshev_distance, direction_of, lemma_direction_of_unit, Direction,
};
use crate::collision_free::{
    lemma_convex_once_keeps_clear, lemma_cut_keeps_clear, lemma_merged_keeps_clear,
    lemma_shift_once_keeps_clear, stays_clear, steps_clear,
};
use crate::fixed_point::FixedPoint;
use crate::grid::{in_range, within_limit};
use crate::line::{lemma_meet_on_lines, lies_on, meet, Line};
use crate::oracle::{ask, bisect, blocked, geometric, lies_within, trace_oracle};
use crate::trace_path::{
    diagonal_of, duplicate_anchors, layers_linked, segments_of, straight_of, vias_of,
    TraceAnchor, TraceAnchors, TracePath,
};
use crate::vec2::FixedVec2;

verus! {

/// Displacement from anchor `i` to the next one.
pub open spec fn step(a: Seq<TraceAnchor>, i: int) -> (int, int) {
    (a[i + 1].position.x@ - a[i].position.x@, a[i + 1].position.y@ - a[i].position.y@)
}

/// Direction from anchor `i` to the next one; meaningful when they differ.
pub open spec fn step_direction(a: Seq<TraceAnchor>, i: int) -> Direction {
    direction_of(step(a, i).0, step(a, i).1)
}

/// Whether anchor `i` and the next one share their position.
pub open spec fn step_empty(a: Seq<TraceAnchor>, i: int) -> bool {
    a[i].position == a[i + 1].position
}

/// Whether the step from anchor `i` lies on one of the eight directions
/// or is empty.
pub open spec fn step_aligned(a: Seq<TraceAnchor>, i: int) -> bool {
    aligned(step(a, i).0, step(a, i).1)
}

/// Whether an anchor arrives and leaves on the same layer.
pub open spec fn same_layer(x: TraceAnchor) -> bool {
    x.start_layer == x.end_layer
}

/// The anchors that change layer, in path order.
pub open spec fn layer_changes(a: Seq<TraceAnchor>) -> Seq<TraceAnchor>
    decreases a.len(),
{
    if a.len() == 0 {
        Seq::empty()
    } else if same_layer(a.last()) {
        layer_changes(a.drop_last())
    } else {
        layer_changes(a.drop_last()).push(a.last())
    }
}

/// A path that the rewrites accept: consecutive anchors are linked by
/// layer, every step is aligned or empty, and every anchor is within the
/// coordinate limit.
pub open spec fn valid_path(a: Seq<TraceAnchor>) -> bool {
    &&& layers_linked(a)
    &&& forall|i: int| 0 <= i < a.len() - 1 ==> #[trigger] step_aligned(a, i)
    &&& forall|i: int| 0 <= i < a.len() ==> in_range((#[trigger] a[i]).position@)
}

/// Whether a rewrite kept what it must: both endpoints and the anchors
/// that change layer.
pub open spec fn keeps_route(old_path: Seq<TraceAnchor>, new_path: Seq<TraceAnchor>) -> bool {
    &&& new_path.len() >= 1
    &&& new_path.first() == old_path.first()
    &&& new_path.last() == old_path.last()
    &&& layer_changes(new_path) == layer_changes(old_path)
}

pub proof fn lemma_layer_changes_add(a: Seq<TraceAnchor>, b: Seq<TraceAnchor>)
    ensures
        layer_changes(a + b) == layer_changes(a) + layer_changes(b),
    decreases b.len(),
{
    if b.len() == 0 {
        assert(a + b =~= a);
        assert(layer_changes(a) + layer_changes(b) =~= layer_changes(a));
    } else {
        assert((a + b).drop_last() =~= a + b.drop_last());
        assert((a + b).last() == b.last());
        lemma_layer_changes_add(a, b.drop_last());
        if !same_layer(b.last()) {
            assert((layer_changes(a) + layer_changes(b.drop_last())).push(b.last()) =~= layer_changes(
                a,
            ) + layer_changes(b.drop_last()).push(b.last()));
        }
    }
}

proof fn lemma_layer_changes_one(x: TraceAnchor)
    ensures
        layer_changes(seq![x]) == if same_layer(x) {
            Seq::<TraceAnchor>::empty()
        } else {
            seq![x]
        },
{
    assert(seq![x].drop_last() =~= Seq::<TraceAnchor>::empty());
    assert(layer_changes(Seq::<TraceAnchor>::empty()) =~= Seq::<TraceAnchor>::empty());
    assert(Seq::<TraceAnchor>::empty().push(x) =~= seq![x]);
}

/// Removing an anchor that stays on its layer keeps the layer changes.
pub proof fn lemma_layer_changes_remove(a: Seq<TraceAnchor>, k: int)
    requires
        0 <= k < a.len(),
        same_layer(a[k]),
    ensures
        layer_changes(a.remove(k)) == layer_changes(a),
{
    let left = a.subrange(0, k);
    let right = a.subrange(k + 1, a.len() as int);
    assert(a =~= left + seq![a[k]] + right);
    lemma_layer_changes_add(left, seq![a[k]]);
    lemma_layer_changes_add(left + seq![a[k]], right);
    lemma_layer_changes_add(left, right);
    lemma_layer_changes_one(a[k]);
    assert(layer_changes(left) + Seq::<TraceAnchor>::empty() =~= layer_changes(left));
}

/// Adding an anchor that stays on its layer keeps the layer changes.
pub proof fn lemma_layer_changes_insert(a: Seq<TraceAnchor>, k: int, x: TraceAnchor)
    requires
        0 <= k <= a.len(),
        same_layer(x),
    ensures
        layer_changes(a.insert(k, x)) == layer_changes(a),
{
    let b = a.insert(k, x);
    assert(b.remove(k) =~= a);
    assert(b[k] == x);
    lemma_layer_changes_remove(b, k);
}

/// Moving an anchor that stays on its layer keeps the layer changes.
pub proof fn lemma_layer_changes_update(a: Seq<TraceAnchor>, k: int, x: TraceAnchor)
    requires
        0 <= k < a.len(),
        same_layer(x),
        same_layer(a[k]),
    ensures
        layer_changes(a.update(k, x)) == layer_changes(a),
{
    let b = a.update(k, x);
    assert(b.remove(k) =~= a.remove(k));
    lemma_layer_changes_remove(b, k);
    lemma_layer_changes_remove(a, k);
}

/// Whether the middle one of the three anchors from `i` can go: it stays
/// on its layer, and the two steps around it run the same way or one of
/// them is empty.
pub open spec fn mergeable(a: Seq<TraceAnchor>, i: int) -> bool {
    &&& 0 <= i
    &&& i + 2 < a.len()
    &&& same_layer(a[i + 1])
    &&& (step_empty(a, i) || step_empty(a, i + 1) || step_direction(a, i) == step_direction(
        a,
        i + 1,
    ))
}

/// Whether `i` is the first index at which an anchor can be merged away.
pub open spec fn first_mergeable(a: Seq<TraceAnchor>, i: int) -> bool {
    mergeable(a, i) && forall|j: int| 0 <= j < i ==> !mergeable(a, j)
}

/// Whether the path turns by a quarter turn or more at anchor `i + 1`,
/// which stays on its layer.
pub open spec fn cuttable(a: Seq<TraceAnchor>, i: int) -> bool {
    &&& 0 <= i
    &&& i + 2 < a.len()
    &&& same_layer(a[i + 1])
    &&& !step_empty(a, i)
    &&& !step_empty(a, i + 1)
    &&& ({
        let t = step_direction(a, i).turn_from(step_direction(a, i + 1));
        t == 2 || t == 6 || t == 3 || t == 5
    })
}

/// Removing a mergeable anchor leaves a valid path with the same route.
pub proof fn lemma_merge_valid(a: Seq<TraceAnchor>, i: int)
    requires
        valid_path(a),
        mergeable(a, i),
    ensures
        valid_path(a.remove(i + 1)),
        keeps_route(a, a.remove(i + 1)),
{
    let b = a.remove(i + 1);
    lemma_layer_changes_remove(a, i + 1);
    assert(step_aligned(a, i));
    assert(step_aligned(a, i + 1));
    assert forall|j: int| 0 <= j < b.len() - 1 implies #[trigger] step_aligned(b, j) by {
        if j < i {
            assert(step_aligned(a, j));
        } else if j == i {
            assert(step(b, j).0 == step(a, i).0 + step(a, i + 1).0);
            assert(step(b, j).1 == step(a, i).1 + step(a, i + 1).1);
        } else {
            assert(step_aligned(a, j + 1));
            assert(step(b, j) == step(a, j + 1));
        }
    }
    assert forall|j: int| 0 <= j < b.len() - 1 implies (#[trigger] b[j]).end_layer == b[j
        + 1].start_layer by {
        if j < i {
            assert(a[j].end_layer == a[j + 1].start_layer);
        } else if j == i {
            assert(a[j].end_layer == a[j + 1].start_layer);
            assert(a[j + 1].end_layer == a[j + 2].start_layer);
        } else {
            assert(a[j + 1].end_layer == a[j + 2].start_layer);
        }
    }
    assert forall|j: int| 0 <= j < b.len() implies in_range((#[trigger] b[j]).position@) by {
        if j <= i {
            assert(in_range(a[j].position@));
        } else {
            assert(in_range(a[j + 1].position@));
        }
    }
}

/// Doubling a cuttable anchor leaves a valid path with the same route.
pub proof fn lemma_cut_valid(a: Seq<TraceAnchor>, i: int)
    requires
        valid_path(a),
        cuttable(a, i),
    ensures
        valid_path(a.insert(i + 2, a[i + 1])),
        keeps_route(a, a.insert(i + 2, a[i + 1])),
{
    let b = a.insert(i + 2, a[i + 1]);
    lemma_layer_changes_insert(a, i + 2, a[i + 1]);
    assert forall|j: int| 0 <= j < b.len() implies in_range((#[trigger] b[j]).position@) by {
        if j <= i + 1 {
            assert(in_range(a[j].position@));
        } else {
            assert(in_range(a[j - 1].position@));
        }
    }
    assert forall|j: int| 0 <= j < b.len() - 1 implies #[trigger] step_aligned(b, j) by {
        if j <= i {
            assert(step_aligned(a, j));
        } else if j == i + 1 {
        } else {
            assert(step_aligned(a, j - 1));
            assert(step(b, j) == step(a, j - 1));
        }
    }
    assert forall|j: int| 0 <= j < b.len() - 1 implies (#[trigger] b[j]).end_layer == b[j
        + 1].start_layer by {
        if j <= i {
            assert(a[j].end_layer == a[j + 1].start_layer);
        } else if j == i + 1 {
        } else {
            assert(a[j - 1].end_layer == a[j].start_layer);
        }
    }
}

/// Whether `i` is the first index at which the path can be cut.
pub open spec fn first_cuttable(a: Seq<TraceAnchor>, i: int) -> bool {
    cuttable(a, i) && forall|j: int| 0 <= j < i ==> !cuttable(a, j)
}

fn step_dir(a: &Vec<TraceAnchor>, i: usize) -> (r: Option<Direction>)
    requires
        i + 1 < a@.len(),
        step_aligned(a@, i as int),
    ensures
        match r {
            Some(d) => !step_empty(a@, i as int) && d == step_direction(a@, i as int),
            None => step_empty(a@, i as int),
        },
{
    let n = a.len();
    let p = a[i].position;
    let q = a[i + 1].position;
    match Direction::from_points(p, q) {
        Ok(d) => d,
        Err(_) => None,
    }
}

/// Removes the middle of the first three consecutive anchors that lie on
/// one line on one layer. Returns whether an anchor was removed.
pub fn try_merge_path(optimized: &mut Vec<TraceAnchor>) -> (r: bool)
    requires
        valid_path(old(optimized)@),
    ensures
        r ==> exists|i: int|
            #[trigger] first_mergeable(old(optimized)@, i) && final(optimized)@ == old(
                optimized,
            )@.remove(i + 1),
        !r ==> final(optimized)@ == old(optimized)@ && forall|j: int|
            !mergeable(old(optimized)@, j),
        valid_path(final(optimized)@),
        old(optimized)@.len() >= 1 ==> keeps_route(old(optimized)@, final(optimized)@),
{
    let n = optimized.len();
    if n < 3 {
        return false;
    }
    let mut i: usize = 0;
    while i < n - 2
        invariant
            n == optimized@.len(),
            n >= 3,
            optimized@ == old(optimized)@,
            valid_path(optimized@),
            forall|j: int| 0 <= j < i ==> !mergeable(optimized@, j),
        decreases n - i,
    {
        if optimized[i + 1].start_layer == optimized[i + 1].end_layer {
            let ghost a = optimized@;
            assert(step_aligned(a, i as int));
            assert(step_aligned(a, i + 1));
            let d1 = step_dir(optimized, i);
            let d2 = step_dir(optimized, i + 1);
            let merge = match (d1, d2) {
                (Some(x), Some(y)) => x == y,
                _ => true,
            };
            if merge {
                optimized.remove(i + 1);
                proof {
                    assert(mergeable(a, i as int));
                    assert(first_mergeable(a, i as int));
                    lemma_merge_valid(a, i as int);
                }
                return true;
            }
        }
        i = i + 1;
    }
    false
}

/// Doubles the first anchor at which the path turns by a quarter turn
/// or more on one layer, splitting the turn in two. Returns whether an
/// anchor was added.
pub fn try_cut_right_or_sharp_angle(optimized: &mut Vec<TraceAnchor>) -> (r: bool)
    requires
        valid_path(old(optimized)@),
    ensures
        r ==> exists|i: int|
            #[trigger] first_cuttable(old(optimized)@, i) && final(optimized)@ == old(
                optimized,
            )@.insert(i + 2, old(optimized)@[i + 1]),
        !r ==> final(optimized)@ == old(optimized)@ && forall|j: int|
            !cuttable(old(optimized)@, j),
        valid_path(final(optimized)@),
        old(optimized)@.len() >= 1 ==> keeps_route(old(optimized)@, final(optimized)@),
{
    let n = optimized.len();
    if n < 3 {
        return false;
    }
    let mut i: usize = 0;
    while i < n - 2
        invariant
            n == optimized@.len(),
            n >= 3,
            optimized@ == old(optimized)@,
            valid_path(optimized@),
            forall|j: int| 0 <= j < i ==> !cuttable(optimized@, j),
        decreases n - i,
    {
        if optimized[i + 1].start_layer == optimized[i + 1].end_layer {
            let ghost a = optimized@;
            assert(step_aligned(a, i as int));
            assert(step_aligned(a, i + 1));
            let d1 = step_dir(optimized, i);
            let d2 = step_dir(optimized, i + 1);
            let cut = match (d1, d2) {
                (Some(x), Some(y)) => x.is_right_angle(y) || x.is_sharp_angle(y),
                _ => false,
            };
            if cut {
                let anchor = optimized[i + 1];
                optimized.insert(i + 2, anchor);
                proof {
                    assert(cuttable(a, i as int));
                    assert(first_cuttable(a, i as int));
                    lemma_cut_valid(a, i as int);
                }
                return true;
            }
        }
        i = i + 1;
    }
    false
}


/// The point `p` displaced by `(dx, dy)` ticks.
pub open spec fn moved(p: FixedVec2, dx: int, dy: int) -> FixedVec2 {
    FixedVec2 {
        x: FixedPoint { bits: (p.x@ + dx) as i32 },
        y: FixedPoint { bits: (p.y@ + dy) as i32 },
    }
}

/// The anchor `x` at another position.
pub open spec fn placed(x: TraceAnchor, p: FixedVec2) -> TraceAnchor {
    TraceAnchor { position: p, start_layer: x.start_layer, end_layer: x.end_layer }
}

/// The point `p` pushed back by `len` ticks against direction `d`.
pub open spec fn slid(p: FixedVec2, d: Direction, len: int) -> FixedVec2 {
    moved(p, -(d.unit_x() * len), -(d.unit_y() * len))
}

/// Whether the four anchors from `i` form a step aside: the two middle
/// ones stay on their layer, the outer steps run the same way and the
/// middle step runs another way.
pub open spec fn shift_window(a: Seq<TraceAnchor>, i: int) -> bool {
    &&& 0 <= i
    &&& i + 3 < a.len()
    &&& same_layer(a[i + 1])
    &&& same_layer(a[i + 2])
    &&& !step_empty(a, i)
    &&& !step_empty(a, i + 1)
    &&& !step_empty(a, i + 2)
    &&& step_direction(a, i) == step_direction(a, i + 2)
    &&& step_direction(a, i) != step_direction(a, i + 1)
}

/// Where the middle step starts once it is moved all the way back to the
/// first anchor of the window.
pub open spec fn left_corner(a: Seq<TraceAnchor>, i: int) -> FixedVec2 {
    moved(a[i].position, step(a, i + 1).0, step(a, i + 1).1)
}

/// Where the middle step ends once it is moved all the way forward to the
/// last anchor of the window.
pub open spec fn right_corner(a: Seq<TraceAnchor>, i: int) -> FixedVec2 {
    moved(a[i + 3].position, -step(a, i + 1).0, -step(a, i + 1).1)
}

/// Whether the window's three pieces collide once the middle step is
/// pushed back by `len` ticks; empty pieces are not asked about.
pub open spec fn slide_blocked<F: Fn(FixedVec2, FixedVec2, usize) -> bool>(
    f: &F,
    a: Seq<TraceAnchor>,
    i: int,
    len: int,
) -> bool {
    let d = step_direction(a, i);
    let s = slid(a[i + 1].position, d, len);
    let e = slid(a[i + 2].position, d, len);
    let layer = a[i].end_layer;
    ||| (a[i].position != s && blocked(f, a[i].position, s, layer))
    ||| (s != e && blocked(f, s, e, layer))
    ||| (e != a[i + 3].position && blocked(f, e, a[i + 3].position, layer))
}

/// The question that the search for room asks at each length.
pub open spec fn slide_question<F: Fn(FixedVec2, FixedVec2, usize) -> bool>(
    f: &F,
    a: Seq<TraceAnchor>,
    i: int,
) -> spec_fn(int) -> bool {
    |len: int| slide_blocked(f, a, i, len)
}

/// How far a search by halving pushes the middle step back.
pub open spec fn slide_length<F: Fn(FixedVec2, FixedVec2, usize) -> bool>(
    f: &F,
    a: Seq<TraceAnchor>,
    i: int,
) -> int {
    bisect(0, chebyshev(step(a, i).0, step(a, i).1), slide_question(f, a, i))
}

/// What a step aside at window `i` becomes, if anything: the middle step
/// moved back to the first anchor when the oracle lets it, else moved
/// forward to the last anchor when the oracle lets it, else pushed back as
/// far as a search by halving finds room.
pub open spec fn shift_outcome<F: Fn(FixedVec2, FixedVec2, usize) -> bool>(
    f: &F,
    a: Seq<TraceAnchor>,
    i: int,
) -> Option<Seq<TraceAnchor>> {
    let layer = a[i].end_layer;
    let n1 = left_corner(a, i);
    let n2 = right_corner(a, i);
    let len = slide_length(f, a, i);
    let d = step_direction(a, i);
    if !shift_window(a, i) {
        None
    } else if in_range(n1@) && !blocked(f, a[i].position, n1, layer) && !blocked(
        f,
        n1,
        a[i + 3].position,
        layer,
    ) {
        Some(a.update(i + 2, placed(a[i + 2], n1)).remove(i + 1))
    } else if in_range(n2@) && !blocked(f, n2, a[i + 3].position, layer) && !blocked(
        f,
        n2,
        a[i].position,
        layer,
    ) {
        Some(a.update(i + 1, placed(a[i + 1], n2)).remove(i + 2))
    } else if len > 0 && in_range(slid(a[i + 2].position, d, len)@) {
        Some(
            a.update(i + 1, placed(a[i + 1], slid(a[i + 1].position, d, len))).update(
                i + 2,
                placed(a[i + 2], slid(a[i + 2].position, d, len)),
            ),
        )
    } else {
        None
    }
}

/// Whether `i` is the first window at which a step aside is rewritten.
pub open spec fn first_shift<F: Fn(FixedVec2, FixedVec2, usize) -> bool>(
    f: &F,
    a: Seq<TraceAnchor>,
    i: int,
) -> bool {
    shift_outcome(f, a, i).is_some() && forall|j: int|
        0 <= j < i ==> shift_outcome(f, a, j).is_none()
}

/// Replacing anchors `k` and `k + 1` of a valid path by anchors on the
/// same layers keeps the path valid when the three steps around them stay
/// aligned and the new positions are within the coordinate limit.
proof fn lemma_replace_two(a: Seq<TraceAnchor>, k: int, x: FixedVec2, y: FixedVec2)
    requires
        valid_path(a),
        1 <= k,
        k + 2 < a.len(),
        same_layer(a[k]),
        same_layer(a[k + 1]),
        in_range(x@),
        in_range(y@),
        aligned(x.x@ - a[k - 1].position.x@, x.y@ - a[k - 1].position.y@),
        aligned(y.x@ - x.x@, y.y@ - x.y@),
        aligned(a[k + 2].position.x@ - y.x@, a[k + 2].position.y@ - y.y@),
    ensures
        valid_path(a.update(k, placed(a[k], x)).update(k + 1, placed(a[k + 1], y))),
        keeps_route(a, a.update(k, placed(a[k], x)).update(k + 1, placed(a[k + 1], y))),
{
    let b1 = a.update(k, placed(a[k], x));
    let b = b1.update(k + 1, placed(a[k + 1], y));
    lemma_layer_changes_update(a, k, placed(a[k], x));
    lemma_layer_changes_update(b1, k + 1, placed(a[k + 1], y));
    assert forall|j: int| 0 <= j < b.len() - 1 implies #[trigger] step_aligned(b, j) by {
        assert(step_aligned(a, j));
    }
    assert forall|j: int| 0 <= j < b.len() - 1 implies (#[trigger] b[j]).end_layer == b[j
        + 1].start_layer by {
        assert(a[j].end_layer == a[j + 1].start_layer);
    }
    assert forall|j: int| 0 <= j < b.len() implies in_range((#[trigger] b[j]).position@) by {
        assert(in_range(a[j].position@));
    }
}

/// Replacing anchors `k` and `k + 1` of a valid path by one anchor keeps
/// the path valid when the two steps around it are aligned and the new
/// position is within the coordinate limit.
proof fn lemma_replace_two_by_one(a: Seq<TraceAnchor>, k: int, x: FixedVec2, keep_first: bool)
    requires
        valid_path(a),
        1 <= k,
        k + 2 < a.len(),
        same_layer(a[k]),
        same_layer(a[k + 1]),
        in_range(x@),
        aligned(x.x@ - a[k - 1].position.x@, x.y@ - a[k - 1].position.y@),
        aligned(a[k + 2].position.x@ - x.x@, a[k + 2].position.y@ - x.y@),
    ensures
        keep_first ==> valid_path(a.update(k, placed(a[k], x)).remove(k + 1)) && keeps_route(
            a,
            a.update(k, placed(a[k], x)).remove(k + 1),
        ),
        !keep_first ==> valid_path(a.update(k + 1, placed(a[k + 1], x)).remove(k)) && keeps_route(
            a,
            a.update(k + 1, placed(a[k + 1], x)).remove(k),
        ),
{
    let b1 = if keep_first {
        a.update(k, placed(a[k], x))
    } else {
        a.update(k + 1, placed(a[k + 1], x))
    };
    let b = if keep_first {
        b1.remove(k + 1)
    } else {
        b1.remove(k)
    };
    assert(a[k - 1].end_layer == a[k].start_layer);
    assert(a[k].end_layer == a[k + 1].start_layer);
    assert(a[k + 1].end_layer == a[k + 2].start_layer);
    if keep_first {
        lemma_layer_changes_update(a, k, placed(a[k], x));
        lemma_layer_changes_remove(b1, k + 1);
    } else {
        lemma_layer_changes_update(a, k + 1, placed(a[k + 1], x));
        lemma_layer_changes_remove(b1, k);
    }
    assert forall|j: int| 0 <= j < b.len() - 1 implies #[trigger] step_aligned(b, j) by {
        if j < k - 1 {
            assert(step_aligned(a, j));
        } else if j > k {
            assert(step_aligned(a, j + 1));
            assert(step(b, j) == step(a, j + 1));
        }
    }
    assert forall|j: int| 0 <= j < b.len() - 1 implies (#[trigger] b[j]).end_layer == b[j
        + 1].start_layer by {
        if j < k - 1 {
            assert(a[j].end_layer == a[j + 1].start_layer);
        } else if j > k {
            assert(a[j + 1].end_layer == a[j + 2].start_layer);
        }
    }
    assert forall|j: int| 0 <= j < b.len() implies in_range((#[trigger] b[j]).position@) by {
        if j < k {
            assert(in_range(a[j].position@));
        } else if j > k {
            assert(in_range(a[j + 1].position@));
        }
    }
}

/// Two displacements in one direction add up to a displacement in that
/// direction.
proof fn lemma_same_direction_sum(ax: int, ay: int, bx: int, by: int)
    requires
        aligned(ax, ay),
        aligned(bx, by),
        ax != 0 || ay != 0,
        bx != 0 || by != 0,
        direction_of(ax, ay) == direction_of(bx, by),
    ensures
        aligned(ax + bx, ay + by),
        ax + bx != 0 || ay + by != 0,
        direction_of(ax + bx, ay + by) == direction_of(ax, ay),
        chebyshev(ax + bx, ay + by) == chebyshev(ax, ay) + chebyshev(bx, by),
{
}

/// A step back along the first step of a window, no longer than that
/// step, leaves the three pieces of the window aligned.
proof fn lemma_slide_aligned(a: Seq<TraceAnchor>, i: int, len: int)
    requires
        valid_path(a),
        shift_window(a, i),
        0 <= len <= chebyshev(step(a, i).0, step(a, i).1),
    ensures
        ({
            let d = step_direction(a, i);
            let sx = a[i + 1].position.x@ - d.unit_x() * len;
            let sy = a[i + 1].position.y@ - d.unit_y() * len;
            let ex = a[i + 2].position.x@ - d.unit_x() * len;
            let ey = a[i + 2].position.y@ - d.unit_y() * len;
            &&& in_range((sx, sy))
            &&& -0x6000_0000 <= ex <= 0x6000_0000
            &&& -0x6000_0000 <= ey <= 0x6000_0000
            &&& aligned(sx - a[i].position.x@, sy - a[i].position.y@)
            &&& aligned(ex - sx, ey - sy)
            &&& (ex != sx || ey != sy)
            &&& aligned(a[i + 3].position.x@ - ex, a[i + 3].position.y@ - ey)
            &&& (a[i + 3].position.x@ != ex || a[i + 3].position.y@ != ey)
            &&& (len < chebyshev(step(a, i).0, step(a, i).1) ==> (sx != a[i].position.x@ || sy
                != a[i].position.y@))
            &&& (len == chebyshev(step(a, i).0, step(a, i).1) ==> (sx == a[i].position.x@ && sy
                == a[i].position.y@))
        }),
{
    let d = step_direction(a, i);
    assert(step_aligned(a, i));
    assert(step_aligned(a, i + 1));
    assert(step_aligned(a, i + 2));
    assert(in_range(a[i].position@));
    assert(in_range(a[i + 1].position@));
    assert(in_range(a[i + 2].position@));
    assert(in_range(a[i + 3].position@));
    lemma_direction_of_unit(step(a, i).0, step(a, i).1);
    lemma_direction_of_unit(step(a, i + 2).0, step(a, i + 2).1);
    let m = chebyshev(step(a, i).0, step(a, i).1);
    let m3 = chebyshev(step(a, i + 2).0, step(a, i + 2).1);
    let ux = d.unit_x();
    let uy = d.unit_y();
    assert(ux == 1 || ux == 0 || ux == -1);
    assert(uy == 1 || uy == 0 || uy == -1);
    assert(ux * len == if ux == 1 {
        len
    } else if ux == 0 {
        0
    } else {
        -len
    });
    assert(uy * len == if uy == 1 {
        len
    } else if uy == 0 {
        0
    } else {
        -len
    });
    assert(ux * m == if ux == 1 {
        m
    } else if ux == 0 {
        0
    } else {
        -m
    });
    assert(uy * m == if uy == 1 {
        m
    } else if uy == 0 {
        0
    } else {
        -m
    });
    assert(ux * m3 == if ux == 1 {
        m3
    } else if ux == 0 {
        0
    } else {
        -m3
    });
    assert(uy * m3 == if uy == 1 {
        m3
    } else if uy == 0 {
        0
    } else {
        -m3
    });
}


fn ask_slide<F: Fn(FixedVec2, FixedVec2, usize) -> bool>(
    f: &F,
    a: &Vec<TraceAnchor>,
    i: usize,
    d: Direction,
    len: i64,
) -> (r: bool)
    requires
        trace_oracle(f),
        valid_path(a@),
        shift_window(a@, i as int),
        d == step_direction(a@, i as int),
        0 <= len <= chebyshev(step(a@, i as int).0, step(a@, i as int).1),
    ensures
        r == slide_blocked(f, a@, i as int, len as int),
{
    proof {
        lemma_slide_aligned(a@, i as int, len as int);
    }
    let u = d.to_int_vec2();
    let n = a.len();
    let p0 = a[i].position;
    let p1 = a[i + 1].position;
    let p2 = a[i + 2].position;
    let p3 = a[i + 3].position;
    let layer = a[i].end_layer;
    assert(u.x * len == d.unit_x() * len);
    assert(u.y * len == d.unit_y() * len);
    assert(-0x4000_0000 <= u.x * len <= 0x4000_0000 && -0x4000_0000 <= u.y * len <= 0x4000_0000)
        by (nonlinear_arith)
        requires
            -1 <= u.x <= 1,
            -1 <= u.y <= 1,
            0 <= len <= 0x4000_0000,
    ;
    let s = FixedVec2::from_bits(
        (p1.x.bits as i64 - u.x as i64 * len) as i32,
        (p1.y.bits as i64 - u.y as i64 * len) as i32,
    );
    let e = FixedVec2::from_bits(
        (p2.x.bits as i64 - u.x as i64 * len) as i32,
        (p2.y.bits as i64 - u.y as i64 * len) as i32,
    );
    assert(s == slid(p1, d, len as int));
    assert(e == slid(p2, d, len as int));
    if p0 != s && ask(f, p0, s, layer) {
        return true;
    }
    if s != e && ask(f, s, e, layer) {
        return true;
    }
    e != p3 && ask(f, e, p3, layer)
}

fn search_slide<F: Fn(FixedVec2, FixedVec2, usize) -> bool>(
    f: &F,
    a: &Vec<TraceAnchor>,
    i: usize,
    d: Direction,
    m: i64,
) -> (r: i64)
    requires
        trace_oracle(f),
        valid_path(a@),
        shift_window(a@, i as int),
        d == step_direction(a@, i as int),
        m == chebyshev(step(a@, i as int).0, step(a@, i as int).1),
    ensures
        r == slide_length(f, a@, i as int),
        0 <= r < m,
{
    let mut lo: i64 = 0;
    let mut hi: i64 = m;
    proof {
        assert(step_aligned(a@, i as int));
        lemma_direction_of_unit(step(a@, i as int).0, step(a@, i as int).1);
    }
    while lo + 1 < hi
        invariant
            trace_oracle(f),
            valid_path(a@),
            shift_window(a@, i as int),
            d == step_direction(a@, i as int),
            m == chebyshev(step(a@, i as int).0, step(a@, i as int).1),
            0 <= lo < hi <= m,
            bisect(lo as int, hi as int, slide_question(f, a@, i as int)) == slide_length(
                f,
                a@,
                i as int,
            ),
        decreases hi - lo,
    {
        let mid = lo + (hi - lo) / 2;
        let hit = ask_slide(f, a, i, d, mid);
        assert(hit == slide_question(f, a@, i as int)(mid as int));
        if hit {
            hi = mid;
        } else {
            lo = mid;
        }
    }
    lo
}

/// Rewrites the first step aside that the oracle lets it straighten or
/// push back towards the start of the path. Returns whether the path
/// changed.
pub fn try_parallel_shift<F: Fn(FixedVec2, FixedVec2, usize) -> bool>(
    optimized: &mut Vec<TraceAnchor>,
    check_collision_for_trace: &F,
) -> (r: bool)
    requires
        valid_path(old(optimized)@),
        trace_oracle(check_collision_for_trace),
    ensures
        r ==> exists|i: int|
            #[trigger] first_shift(check_collision_for_trace, old(optimized)@, i) && shift_outcome(
                check_collision_for_trace,
                old(optimized)@,
                i,
            ) == Some(final(optimized)@),
        !r ==> final(optimized)@ == old(optimized)@ && forall|j: int|
            0 <= j ==> shift_outcome(check_collision_for_trace, old(optimized)@, j).is_none(),
        valid_path(final(optimized)@),
        old(optimized)@.len() >= 1 ==> keeps_route(old(optimized)@, final(optimized)@),
{
    let n = optimized.len();
    if n < 4 {
        return false;
    }
    let mut i: usize = 0;
    while i < n - 3
        invariant
            n == optimized@.len(),
            n >= 4,
            optimized@ == old(optimized)@,
            valid_path(optimized@),
            trace_oracle(check_collision_for_trace),
            forall|j: int| 0 <= j < i ==> shift_outcome(check_collision_for_trace, optimized@, j).is_none(),
        decreases n - i,
    {
        let ghost a = optimized@;
        let a1 = optimized[i + 1];
        let a2 = optimized[i + 2];
        if a1.start_layer == a1.end_layer && a2.start_layer == a2.end_layer {
            assert(step_aligned(a, i as int));
            assert(step_aligned(a, i + 1));
            assert(step_aligned(a, i + 2));
            let d1 = step_dir(optimized, i);
            let d2 = step_dir(optimized, i + 1);
            let d3 = step_dir(optimized, i + 2);
            match (d1, d2, d3) {
                (Some(dir1), Some(dir2), Some(dir3)) => {
                    if dir1 == dir3 && dir1 != dir2 {
                        assert(shift_window(a, i as int));
                        if shift_here(optimized, i, check_collision_for_trace, dir1) {
                            assert(first_shift(
                                check_collision_for_trace,
                                old(optimized)@,
                                i as int,
                            ) && shift_outcome(
                                check_collision_for_trace,
                                old(optimized)@,
                                i as int,
                            ) == Some(optimized@));
                            return true;
                        }
                    }
                },
                _ => {},
            }
        }
        assert(shift_outcome(check_collision_for_trace, a, i as int).is_none());
        i = i + 1;
    }
    false
}

fn try_left<F: Fn(FixedVec2, FixedVec2, usize) -> bool>(
    optimized: &mut Vec<TraceAnchor>,
    i: usize,
    f: &F,
) -> (r: bool)
    requires
        valid_path(old(optimized)@),
        trace_oracle(f),
        shift_window(old(optimized)@, i as int),
    ensures
        r == (in_range(left_corner(old(optimized)@, i as int)@) && !blocked(
            f,
            old(optimized)@[i as int].position,
            left_corner(old(optimized)@, i as int),
            old(optimized)@[i as int].end_layer,
        ) && !blocked(
            f,
            left_corner(old(optimized)@, i as int),
            old(optimized)@[i + 3].position,
            old(optimized)@[i as int].end_layer,
        )),
        r ==> final(optimized)@ == old(optimized)@.update(
            i + 2,
            placed(old(optimized)@[i + 2], left_corner(old(optimized)@, i as int)),
        ).remove(i + 1),
        !r ==> final(optimized)@ == old(optimized)@,
        valid_path(final(optimized)@),
        keeps_route(old(optimized)@, final(optimized)@),
{
    let ghost a = optimized@;
    let n = optimized.len();
    let a0 = optimized[i];
    let a1 = optimized[i + 1];
    let a2 = optimized[i + 2];
    let a3 = optimized[i + 3];
    let layer = a0.end_layer;
    let p0 = a0.position;
    let p3 = a3.position;
    proof {
        assert(in_range(a[i as int].position@));
        assert(in_range(a[i + 1].position@));
        assert(in_range(a[i + 2].position@));
        assert(in_range(a[i + 3].position@));
        assert(step_aligned(a, i as int));
        assert(step_aligned(a, i + 1));
        assert(step_aligned(a, i + 2));
        lemma_same_direction_sum(
            step(a, i as int).0,
            step(a, i as int).1,
            step(a, i + 2).0,
            step(a, i + 2).1,
        );
    }
    let sx = a2.position.x.bits as i64 - a1.position.x.bits as i64;
    let sy = a2.position.y.bits as i64 - a1.position.y.bits as i64;
    let n1x = p0.x.bits as i64 + sx;
    let n1y = p0.y.bits as i64 + sy;
    if within_limit(n1x, n1y) {
        let n1 = FixedVec2::from_bits(n1x as i32, n1y as i32);
        assert(n1 == left_corner(a, i as int));
        if !ask(f, p0, n1, layer) && !ask(f, n1, p3, layer) {
            optimized.set(
                i + 2,
                TraceAnchor { position: n1, start_layer: a2.start_layer, end_layer: a2.end_layer },
            );
            optimized.remove(i + 1);
            proof {
                lemma_replace_two_by_one(a, i + 1, n1, false);
            }
            return true;
        }
    }
    false
}

fn try_right<F: Fn(FixedVec2, FixedVec2, usize) -> bool>(
    optimized: &mut Vec<TraceAnchor>,
    i: usize,
    f: &F,
) -> (r: bool)
    requires
        valid_path(old(optimized)@),
        trace_oracle(f),
        shift_window(old(optimized)@, i as int),
    ensures
        r == (in_range(right_corner(old(optimized)@, i as int)@) && !blocked(
            f,
            right_corner(old(optimized)@, i as int),
            old(optimized)@[i + 3].position,
            old(optimized)@[i as int].end_layer,
        ) && !blocked(
            f,
            right_corner(old(optimized)@, i as int),
            old(optimized)@[i as int].position,
            old(optimized)@[i as int].end_layer,
        )),
        r ==> final(optimized)@ == old(optimized)@.update(
            i + 1,
            placed(old(optimized)@[i + 1], right_corner(old(optimized)@, i as int)),
        ).remove(i + 2),
        !r ==> final(optimized)@ == old(optimized)@,
        valid_path(final(optimized)@),
        keeps_route(old(optimized)@, final(optimized)@),
{
    let ghost a = optimized@;
    let n = optimized.len();
    let a0 = optimized[i];
    let a1 = optimized[i + 1];
    let a2 = optimized[i + 2];
    let a3 = optimized[i + 3];
    let layer = a0.end_layer;
    let p0 = a0.position;
    let p3 = a3.position;
    proof {
        assert(in_range(a[i as int].position@));
        assert(in_range(a[i + 1].position@));
        assert(in_range(a[i + 2].position@));
        assert(in_range(a[i + 3].position@));
        assert(step_aligned(a, i as int));
        assert(step_aligned(a, i + 1));
        assert(step_aligned(a, i + 2));
        lemma_same_direction_sum(
            step(a, i as int).0,
            step(a, i as int).1,
            step(a, i + 2).0,
            step(a, i + 2).1,
        );
    }
    let sx = a2.position.x.bits as i64 - a1.position.x.bits as i64;
    let sy = a2.position.y.bits as i64 - a1.position.y.bits as i64;
    let n2x = p3.x.bits as i64 - sx;
    let n2y = p3.y.bits as i64 - sy;
    if within_limit(n2x, n2y) {
        let n2 = FixedVec2::from_bits(n2x as i32, n2y as i32);
        assert(n2 == right_corner(a, i as int));
        if !ask(f, n2, p3, layer) && !ask(f, n2, p0, layer) {
            optimized.set(
                i + 1,
                TraceAnchor { position: n2, start_layer: a1.start_layer, end_layer: a1.end_layer },
            );
            optimized.remove(i + 2);
            proof {
                lemma_replace_two_by_one(a, i + 1, n2, true);
            }
            return true;
        }
    }
    false
}

fn try_slide<F: Fn(FixedVec2, FixedVec2, usize) -> bool>(
    optimized: &mut Vec<TraceAnchor>,
    i: usize,
    f: &F,
    dir1: Direction,
) -> (r: bool)
    requires
        valid_path(old(optimized)@),
        trace_oracle(f),
        shift_window(old(optimized)@, i as int),
        dir1 == step_direction(old(optimized)@, i as int),
    ensures
        r == (slide_length(f, old(optimized)@, i as int) > 0 && in_range(
            slid(
                old(optimized)@[i + 2].position,
                dir1,
                slide_length(f, old(optimized)@, i as int),
            )@,
        )),
        r ==> final(optimized)@ == old(optimized)@.update(
            i + 1,
            placed(
                old(optimized)@[i + 1],
                slid(
                    old(optimized)@[i + 1].position,
                    dir1,
                    slide_length(f, old(optimized)@, i as int),
                ),
            ),
        ).update(
            i + 2,
            placed(
                old(optimized)@[i + 2],
                slid(
                    old(optimized)@[i + 2].position,
                    dir1,
                    slide_length(f, old(optimized)@, i as int),
                ),
            ),
        ),
        !r ==> final(optimized)@ == old(optimized)@,
        valid_path(final(optimized)@),
        keeps_route(old(optimized)@, final(optimized)@),
{
    let ghost a = optimized@;
    let n = optimized.len();
    let a0 = optimized[i];
    let a1 = optimized[i + 1];
    let a2 = optimized[i + 2];
    proof {
        assert(in_range(a[i as int].position@));
        assert(in_range(a[i + 1].position@));
        assert(in_range(a[i + 2].position@));
    }
    let m = chebyshev_distance(
        a1.position.x.bits as i64 - a0.position.x.bits as i64,
        a1.position.y.bits as i64 - a0.position.y.bits as i64,
    );
    let len = search_slide(f, optimized, i, dir1, m);
    if len == 0 {
        return false;
    }
    proof {
        lemma_slide_aligned(a, i as int, len as int);
    }
    let u = dir1.to_int_vec2();
    assert(u.x * len == dir1.unit_x() * len);
    assert(u.y * len == dir1.unit_y() * len);
    assert(-0x4000_0000 <= u.x * len <= 0x4000_0000 && -0x4000_0000 <= u.y * len <= 0x4000_0000)
        by (nonlinear_arith)
        requires
            -1 <= u.x <= 1,
            -1 <= u.y <= 1,
            0 <= len <= 0x4000_0000,
    ;
    let ex = a2.position.x.bits as i64 - u.x as i64 * len;
    let ey = a2.position.y.bits as i64 - u.y as i64 * len;
    if !within_limit(ex, ey) {
        return false;
    }
    let s = FixedVec2::from_bits(
        (a1.position.x.bits as i64 - u.x as i64 * len) as i32,
        (a1.position.y.bits as i64 - u.y as i64 * len) as i32,
    );
    let e = FixedVec2::from_bits(ex as i32, ey as i32);
    assert(s == slid(a1.position, dir1, len as int));
    assert(e == slid(a2.position, dir1, len as int));
    optimized.set(
        i + 1,
        TraceAnchor { position: s, start_layer: a1.start_layer, end_layer: a1.end_layer },
    );
    optimized.set(
        i + 2,
        TraceAnchor { position: e, start_layer: a2.start_layer, end_layer: a2.end_layer },
    );
    proof {
        lemma_replace_two(a, i + 1, s, e);
    }
    true
}

fn shift_here<F: Fn(FixedVec2, FixedVec2, usize) -> bool>(
    optimized: &mut Vec<TraceAnchor>,
    i: usize,
    f: &F,
    dir1: Direction,
) -> (r: bool)
    requires
        valid_path(old(optimized)@),
        trace_oracle(f),
        shift_window(old(optimized)@, i as int),
        dir1 == step_direction(old(optimized)@, i as int),
    ensures
        r ==> shift_outcome(f, old(optimized)@, i as int) == Some(final(optimized)@),
        !r ==> final(optimized)@ == old(optimized)@ && shift_outcome(
            f,
            old(optimized)@,
            i as int,
        ).is_none(),
        valid_path(final(optimized)@),
        keeps_route(old(optimized)@, final(optimized)@),
{
    if try_left(optimized, i, f) {
        return true;
    }
    if try_right(optimized, i, f) {
        return true;
    }
    try_slide(optimized, i, f, dir1)
}


/// The unit vector of a direction as a pair.
pub open spec fn unit(d: Direction) -> (int, int) {
    (d.unit_x(), d.unit_y())
}

/// The direction between two directions a quarter turn or three eighths
/// of a turn apart: one eighth of a turn from `d3` towards `d1`.
pub open spec fn between_dir(d1: Direction, d3: Direction) -> Option<Direction> {
    let t = d1.turn_from(d3);
    if t == 3 || t == 2 {
        Some(d3.rotated(1))
    } else if t == 5 || t == 6 {
        Some(d3.rotated(7))
    } else {
        None
    }
}

/// The direction of the middle step of a window; for an empty middle
/// step, the direction between the outer ones.
pub open spec fn middle_direction(a: Seq<TraceAnchor>, i: int) -> Option<Direction> {
    if !step_empty(a, i + 1) {
        Some(step_direction(a, i + 1))
    } else {
        between_dir(step_direction(a, i), step_direction(a, i + 2))
    }
}

/// The side to which three directions that keep turning one way bulge:
/// a quarter turn from the middle one, against the turn.
pub open spec fn spin_normal(d1: Direction, d2: Direction, d3: Direction) -> Option<Direction> {
    if 5 <= d2.turn_from(d1) <= 7 && 5 <= d3.turn_from(d2) <= 7 {
        Some(d2.rotated(6))
    } else if 1 <= d2.turn_from(d1) <= 3 && 1 <= d3.turn_from(d2) <= 3 {
        Some(d2.rotated(2))
    } else {
        None
    }
}

/// How far a displacement reaches along the axes of `n`: the larger of
/// its two coordinates, each taken along the matching coordinate of `n`.
pub open spec fn depth(dx: int, dy: int, n: Direction) -> int {
    let u = dx * n.unit_x();
    let v = dy * n.unit_y();
    if u > v { u } else { v }
}

/// The three directions of a window and the side to which it bulges.
pub open spec fn window_frame(a: Seq<TraceAnchor>, i: int) -> Option<
    (Direction, Direction, Direction, Direction),
> {
    if 0 <= i && i + 3 < a.len() && same_layer(a[i + 1]) && same_layer(a[i + 2]) && !step_empty(
        a,
        i,
    ) && !step_empty(a, i + 2) {
        let d1 = step_direction(a, i);
        let d3 = step_direction(a, i + 2);
        match middle_direction(a, i) {
            Some(d2) => match spin_normal(d1, d2, d3) {
                Some(n) => Some((d1, d2, d3, n)),
                None => None,
            },
            None => None,
        }
    } else {
        None
    }
}

/// How far the middle step of a window can move along `n` before it
/// reaches the first or the last anchor of the window.
pub open spec fn room(a: Seq<TraceAnchor>, i: int, n: Direction) -> int {
    let r1 = depth(-step(a, i).0, -step(a, i).1, n);
    let r2 = depth(step(a, i + 2).0, step(a, i + 2).1, n);
    if r1 <= r2 { r1 } else { r2 }
}

/// The point with the given tick counts.
pub open spec fn point_at(p: (int, int)) -> FixedVec2 {
    FixedVec2 { x: FixedPoint { bits: p.0 as i32 }, y: FixedPoint { bits: p.1 as i32 } }
}

/// The ends of the middle step once its line goes through `base`: where
/// that line meets the lines of the first and of the last step.
pub open spec fn corners(
    a: Seq<TraceAnchor>,
    i: int,
    d1: Direction,
    d2: Direction,
    d3: Direction,
    base: (int, int),
) -> Option<(FixedVec2, FixedVec2)> {
    match (
        meet(base, unit(d2), a[i].position@, unit(d1)),
        meet(base, unit(d2), a[i + 2].position@, unit(d3)),
    ) {
        (Some(s), Some(e)) => Some((point_at(s), point_at(e))),
        _ => None,
    }
}

/// A point on the line of the middle step moved by `len` along `n`.
pub open spec fn pushed(p: FixedVec2, n: Direction, len: int) -> (int, int) {
    (p.x@ + n.unit_x() * len, p.y@ + n.unit_y() * len)
}

/// Whether the middle step, moved by `len` along `n`, has no lattice
/// ends or collides.
pub open spec fn push_blocked<F: Fn(FixedVec2, FixedVec2, usize) -> bool>(
    f: &F,
    a: Seq<TraceAnchor>,
    i: int,
    len: int,
) -> bool {
    match window_frame(a, i) {
        Some((d1, d2, d3, n)) => match corners(a, i, d1, d2, d3, pushed(a[i + 2].position, n, len)) {
            Some((s, e)) => s != e && blocked(f, s, e, a[i].end_layer),
            None => true,
        },
        None => true,
    }
}

/// The question that the search for room asks at each length.
pub open spec fn push_question<F: Fn(FixedVec2, FixedVec2, usize) -> bool>(
    f: &F,
    a: Seq<TraceAnchor>,
    i: int,
) -> spec_fn(int) -> bool {
    |len: int| push_blocked(f, a, i, len)
}

/// The window with its middle anchors at `s` and `e`; an anchor that
/// came to lie on the neighbouring outer anchor on the nearer side is
/// dropped, and both are dropped when each lies on its neighbour.
pub open spec fn collapsed(
    a: Seq<TraceAnchor>,
    i: int,
    s: FixedVec2,
    e: FixedVec2,
    n: Direction,
) -> Seq<TraceAnchor> {
    let base = a.update(i + 1, placed(a[i + 1], s)).update(i + 2, placed(a[i + 2], e));
    let r1 = depth(-step(a, i).0, -step(a, i).1, n);
    let r2 = depth(step(a, i + 2).0, step(a, i + 2).1, n);
    if r1 < r2 && a[i].position == s {
        base.remove(i + 1)
    } else if r1 > r2 && a[i + 3].position == e {
        base.remove(i + 2)
    } else if a[i].position == s && a[i + 3].position == e {
        base.remove(i + 2).remove(i + 1)
    } else {
        base
    }
}

/// How far the middle step moves all at once: the room for an axial
/// side, half the room for a diagonal one.
pub open spec fn full_offset(n: Direction, m: int) -> int {
    if n.unit_x() != 0 && n.unit_y() != 0 {
        m / 2
    } else {
        m
    }
}

/// The ends of the middle step moved all at once, when the window is a
/// bulge with room to move and the moved line meets both outer lines on
/// the lattice.
pub open spec fn collapse_ends(a: Seq<TraceAnchor>, i: int) -> Option<(FixedVec2, FixedVec2)> {
    match window_frame(a, i) {
        None => None,
        Some((d1, d2, d3, n)) => {
            let m = room(a, i, n);
            if m < 1 {
                None
            } else {
                corners(a, i, d1, d2, d3, pushed(a[i + 1].position, n, full_offset(n, m)))
            }
        },
    }
}

/// The ends of the middle step moved as far as a search by halving finds
/// room, when that is further than nowhere.
pub open spec fn push_ends<F: Fn(FixedVec2, FixedVec2, usize) -> bool>(
    f: &F,
    a: Seq<TraceAnchor>,
    i: int,
) -> Option<(FixedVec2, FixedVec2)> {
    match window_frame(a, i) {
        None => None,
        Some((d1, d2, d3, n)) => {
            let len = bisect(0, room(a, i, n), push_question(f, a, i));
            if len > 0 {
                corners(a, i, d1, d2, d3, pushed(a[i + 2].position, n, len))
            } else {
                None
            }
        },
    }
}

/// Whether the ends `s` and `e` of a moved middle step lie on the first
/// and on the last step of window `i`.
pub open spec fn ends_on_steps(a: Seq<TraceAnchor>, i: int, s: FixedVec2, e: FixedVec2) -> bool {
    lies_within(a[i].position, s, a[i + 1].position) && lies_within(
        a[i + 2].position,
        e,
        a[i + 3].position,
    )
}

/// What a bulge at window `i` becomes, if anything. The middle step
/// moves towards the inside of the turn until it reaches the nearer outer
/// anchor, when the oracle lets it; else as far as a search by halving
/// finds room. Either way its new ends must lie on the outer steps, so
/// that those only get shorter.
#[verifier::opaque]
pub open spec fn convex_outcome<F: Fn(FixedVec2, FixedVec2, usize) -> bool>(
    f: &F,
    a: Seq<TraceAnchor>,
    i: int,
) -> Option<Seq<TraceAnchor>> {
    match collapse_ends(a, i) {
        None => None,
        Some((s, e)) => {
            if s == a[i + 1].position || s == e {
                None
            } else if !blocked(f, s, e, a[i].end_layer) {
                if in_range(s@) && in_range(e@) && ends_on_steps(a, i, s, e) {
                    Some(collapsed(a, i, s, e, window_frame(a, i).unwrap().3))
                } else {
                    None
                }
            } else {
                match push_ends(f, a, i) {
                    Some((s2, e2)) => if in_range(s2@) && in_range(e2@) && ends_on_steps(
                        a,
                        i,
                        s2,
                        e2,
                    ) {
                        Some(
                            a.update(i + 1, placed(a[i + 1], s2)).update(
                                i + 2,
                                placed(a[i + 2], e2),
                            ),
                        )
                    } else {
                        None
                    },
                    None => None,
                }
            }
        },
    }
}

/// Whether the three pieces of window `i` are aligned once its middle
/// anchors stand at `s` and `e`.
pub open spec fn ends_aligned(a: Seq<TraceAnchor>, i: int, s: FixedVec2, e: FixedVec2) -> bool {
    &&& aligned(s.x@ - a[i].position.x@, s.y@ - a[i].position.y@)
    &&& aligned(e.x@ - s.x@, e.y@ - s.y@)
    &&& aligned(a[i + 3].position.x@ - e.x@, a[i + 3].position.y@ - e.y@)
}

/// Whether `i` is the first window at which a bulge is rewritten.
pub open spec fn first_convex<F: Fn(FixedVec2, FixedVec2, usize) -> bool>(
    f: &F,
    a: Seq<TraceAnchor>,
    i: int,
) -> bool {
    convex_outcome(f, a, i).is_some() && forall|j: int|
        0 <= j < i ==> convex_outcome(f, a, j).is_none()
}

/// A point on a line along a direction lies in one of the eight
/// directions from every other point on it.
proof fn lemma_on_line_aligned(s: (int, int), e: (int, int), p: (int, int), d: Direction)
    requires
        lies_on(s, p, unit(d)),
        lies_on(e, p, unit(d)),
    ensures
        aligned(e.0 - s.0, e.1 - s.1),
{
    let ux = d.unit_x();
    let uy = d.unit_y();
    let dx = e.0 - s.0;
    let dy = e.1 - s.1;
    assert(dx == 0 || dy == 0 || dx == dy || dx == -dy) by (nonlinear_arith)
        requires
            ux == 0 || ux == 1 || ux == -1,
            uy == 0 || uy == 1 || uy == -1,
            ux != 0 || uy != 0,
            (s.0 - p.0) * uy == (s.1 - p.1) * ux,
            (e.0 - p.0) * uy == (e.1 - p.1) * ux,
            dx == e.0 - s.0,
            dy == e.1 - s.1,
    ;
}

/// The far end of a step lies on the line through its start along its
/// direction.
proof fn lemma_step_on_line(a: Seq<TraceAnchor>, i: int)
    requires
        0 <= i < a.len() - 1,
        step_aligned(a, i),
        !step_empty(a, i),
    ensures
        lies_on(a[i + 1].position@, a[i].position@, unit(step_direction(a, i))),
        lies_on(a[i].position@, a[i].position@, unit(step_direction(a, i))),
{
}

/// The corners of a moved middle step keep the window's three pieces
/// aligned.
proof fn lemma_corners_aligned(
    a: Seq<TraceAnchor>,
    i: int,
    base: (int, int),
    s: FixedVec2,
    e: FixedVec2,
)
    requires
        valid_path(a),
        window_frame(a, i).is_some(),
        corners(
            a,
            i,
            window_frame(a, i).unwrap().0,
            window_frame(a, i).unwrap().1,
            window_frame(a, i).unwrap().2,
            base,
        ) == Some((s, e)),
    ensures
        aligned(s.x@ - a[i].position.x@, s.y@ - a[i].position.y@),
        aligned(e.x@ - s.x@, e.y@ - s.y@),
        aligned(a[i + 3].position.x@ - e.x@, a[i + 3].position.y@ - e.y@),
{
    let (d1, d2, d3, n) = window_frame(a, i).unwrap();
    let p0 = a[i].position@;
    let p2 = a[i + 2].position@;
    let p3 = a[i + 3].position@;
    assert(step_aligned(a, i));
    assert(step_aligned(a, i + 2));
    lemma_meet_on_lines(base, unit(d2), p0, unit(d1));
    lemma_meet_on_lines(base, unit(d2), p2, unit(d3));
    lemma_step_on_line(a, i);
    lemma_step_on_line(a, i + 2);
    lemma_on_line_aligned(p0, s@, p0, d1);
    lemma_on_line_aligned(s@, e@, base, d2);
    lemma_on_line_aligned(e@, p3, p2, d3);
}

/// Every shape of a collapsed window is a valid path with the same
/// route.
proof fn lemma_collapsed_valid(
    a: Seq<TraceAnchor>,
    i: int,
    s: FixedVec2,
    e: FixedVec2,
    n: Direction,
)
    requires
        valid_path(a),
        0 <= i,
        i + 3 < a.len(),
        same_layer(a[i + 1]),
        same_layer(a[i + 2]),
        in_range(s@),
        in_range(e@),
        aligned(s.x@ - a[i].position.x@, s.y@ - a[i].position.y@),
        aligned(e.x@ - s.x@, e.y@ - s.y@),
        aligned(a[i + 3].position.x@ - e.x@, a[i + 3].position.y@ - e.y@),
    ensures
        valid_path(collapsed(a, i, s, e, n)),
        keeps_route(a, collapsed(a, i, s, e, n)),
{
    let base = a.update(i + 1, placed(a[i + 1], s)).update(i + 2, placed(a[i + 2], e));
    lemma_replace_two(a, i + 1, s, e);
    let r1 = depth(-step(a, i).0, -step(a, i).1, n);
    let r2 = depth(step(a, i + 2).0, step(a, i + 2).1, n);
    if r1 < r2 && a[i].position == s {
        assert(mergeable(base, i));
        lemma_merge_valid(base, i);
    } else if r1 > r2 && a[i + 3].position == e {
        assert(mergeable(base, i + 1));
        lemma_merge_valid(base, i + 1);
    } else if a[i].position == s && a[i + 3].position == e {
        assert(mergeable(base, i + 1));
        lemma_merge_valid(base, i + 1);
        let b2 = base.remove(i + 2);
        assert(b2[i] == base[i]);
        assert(b2[i + 1] == base[i + 1]);
        assert(mergeable(b2, i));
        lemma_merge_valid(b2, i);
    }
}


fn frame(a: &Vec<TraceAnchor>, i: usize) -> (r: Option<(Direction, Direction, Direction, Direction)>)
    requires
        valid_path(a@),
        i + 3 < a@.len(),
    ensures
        r == window_frame(a@, i as int),
{
    let n = a.len();
    let a1 = a[i + 1];
    let a2 = a[i + 2];
    if !(a1.start_layer == a1.end_layer && a2.start_layer == a2.end_layer) {
        return None;
    }
    assert(step_aligned(a@, i as int));
    assert(step_aligned(a@, i + 1));
    assert(step_aligned(a@, i + 2));
    let d1 = match step_dir(a, i) {
        Some(d) => d,
        None => {
            return None;
        },
    };
    let d3 = match step_dir(a, i + 2) {
        Some(d) => d,
        None => {
            return None;
        },
    };
    let d2 = match step_dir(a, i + 1) {
        Some(d) => d,
        None => {
            if d1.is_sharp_angle(d3) {
                Direction::between_sharp_angle(d1, d3)
            } else if d1.is_right_angle(d3) {
                Direction::between_right_angle(d1, d3)
            } else {
                return None;
            }
        },
    };
    let left_spin = d2.left_45_90_135(d1) && d3.left_45_90_135(d2);
    let right_spin = d2.right_45_90_135(d1) && d3.right_45_90_135(d2);
    if left_spin {
        Some((d1, d2, d3, d2.left_90_dir()))
    } else if right_spin {
        Some((d1, d2, d3, d2.right_90_dir()))
    } else {
        None
    }
}

fn exec_depth(dx: i64, dy: i64, n: Direction) -> (r: i64)
    requires
        -0x4000_0000 <= dx <= 0x4000_0000,
        -0x4000_0000 <= dy <= 0x4000_0000,
    ensures
        r == depth(dx as int, dy as int, n),
        -0x4000_0000 <= r <= 0x4000_0000,
{
    let u = n.to_int_vec2();
    assert(-0x4000_0000 <= dx * u.x <= 0x4000_0000 && -0x4000_0000 <= dy * u.y <= 0x4000_0000)
        by (nonlinear_arith)
        requires
            -1 <= u.x <= 1,
            -1 <= u.y <= 1,
            -0x4000_0000 <= dx <= 0x4000_0000,
            -0x4000_0000 <= dy <= 0x4000_0000,
    ;
    let p = dx * u.x as i64;
    let q = dy * u.y as i64;
    if p > q { p } else { q }
}

fn exec_room(a: &Vec<TraceAnchor>, i: usize, n: Direction) -> (r: i64)
    requires
        valid_path(a@),
        i + 3 < a@.len(),
    ensures
        r == room(a@, i as int, n),
        r <= 0x4000_0000,
{
    let len = a.len();
    proof {
        assert(in_range(a@[i as int].position@));
        assert(in_range(a@[i + 1].position@));
        assert(in_range(a@[i + 2].position@));
        assert(in_range(a@[i + 3].position@));
    }
    let p0 = a[i].position;
    let p1 = a[i + 1].position;
    let p2 = a[i + 2].position;
    let p3 = a[i + 3].position;
    let r1 = exec_depth(
        p0.x.bits as i64 - p1.x.bits as i64,
        p0.y.bits as i64 - p1.y.bits as i64,
        n,
    );
    let r2 = exec_depth(
        p3.x.bits as i64 - p2.x.bits as i64,
        p3.y.bits as i64 - p2.y.bits as i64,
        n,
    );
    if r1 <= r2 { r1 } else { r2 }
}

/// The tick counts of `p` moved by `len` along `n`.
fn exec_pushed(p: FixedVec2, n: Direction, len: i64) -> (r: FixedVec2)
    requires
        in_range(p@),
        0 <= len <= 0x4000_0000,
    ensures
        r@ == pushed(p, n, len as int),
{
    let u = n.to_int_vec2();
    assert(-0x4000_0000 <= u.x * len <= 0x4000_0000 && -0x4000_0000 <= u.y * len <= 0x4000_0000)
        by (nonlinear_arith)
        requires
            -1 <= u.x <= 1,
            -1 <= u.y <= 1,
            0 <= len <= 0x4000_0000,
    ;
    FixedVec2::from_bits(
        (p.x.bits as i64 + u.x as i64 * len) as i32,
        (p.y.bits as i64 + u.y as i64 * len) as i32,
    )
}

fn exec_corners(
    a: &Vec<TraceAnchor>,
    i: usize,
    d1: Direction,
    d2: Direction,
    d3: Direction,
    base: FixedVec2,
) -> (r: Option<(FixedVec2, FixedVec2)>)
    requires
        i + 3 < a@.len(),
    ensures
        r == corners(a@, i as int, d1, d2, d3, base@),
{
    let len = a.len();
    let moved_line = Line::new(base, d2.to_int_vec2());
    let line1 = Line::new(a[i].position, d1.to_int_vec2());
    let line3 = Line::new(a[i + 2].position, d3.to_int_vec2());
    match (moved_line.intersection(&line1), moved_line.intersection(&line3)) {
        (Some(s), Some(e)) => {
            assert(point_at(s@) == s);
            assert(point_at(e@) == e);
            Some((s, e))
        },
        _ => None,
    }
}

fn ask_push<F: Fn(FixedVec2, FixedVec2, usize) -> bool>(
    f: &F,
    a: &Vec<TraceAnchor>,
    i: usize,
    fr: (Direction, Direction, Direction, Direction),
    len: i64,
) -> (r: bool)
    requires
        trace_oracle(f),
        valid_path(a@),
        window_frame(a@, i as int) == Some(fr),
        0 <= len <= 0x4000_0000,
    ensures
        r == push_blocked(f, a@, i as int, len as int),
{
    let n = a.len();
    proof {
        assert(in_range(a@[i + 2].position@));
    }
    let base = exec_pushed(a[i + 2].position, fr.3, len);
    match exec_corners(a, i, fr.0, fr.1, fr.2, base) {
        Some((s, e)) => s != e && ask(f, s, e, a[i].end_layer),
        None => true,
    }
}

fn search_push<F: Fn(FixedVec2, FixedVec2, usize) -> bool>(
    f: &F,
    a: &Vec<TraceAnchor>,
    i: usize,
    fr: (Direction, Direction, Direction, Direction),
    m: i64,
) -> (r: i64)
    requires
        trace_oracle(f),
        valid_path(a@),
        window_frame(a@, i as int) == Some(fr),
        1 <= m <= 0x4000_0000,
    ensures
        r == bisect(0, m as int, push_question(f, a@, i as int)),
        0 <= r < m,
{
    let mut lo: i64 = 0;
    let mut hi: i64 = m;
    while lo + 1 < hi
        invariant
            trace_oracle(f),
            valid_path(a@),
            window_frame(a@, i as int) == Some(fr),
            0 <= lo < hi <= m,
            m <= 0x4000_0000,
            bisect(lo as int, hi as int, push_question(f, a@, i as int)) == bisect(
                0,
                m as int,
                push_question(f, a@, i as int),
            ),
        decreases hi - lo,
    {
        let mid = lo + (hi - lo) / 2;
        let hit = ask_push(f, a, i, fr, mid);
        assert(hit == push_question(f, a@, i as int)(mid as int));
        if hit {
            hi = mid;
        } else {
            lo = mid;
        }
    }
    lo
}

fn place_two(optimized: &mut Vec<TraceAnchor>, i: usize, s: FixedVec2, e: FixedVec2)
    requires
        i + 3 < old(optimized)@.len(),
    ensures
        final(optimized)@ == old(optimized)@.update(
            i + 1,
            placed(old(optimized)@[i + 1], s),
        ).update(i + 2, placed(old(optimized)@[i + 2], e)),
{
    let n = optimized.len();
    let a1 = optimized[i + 1];
    let a2 = optimized[i + 2];
    optimized.set(
        i + 1,
        TraceAnchor { position: s, start_layer: a1.start_layer, end_layer: a1.end_layer },
    );
    optimized.set(
        i + 2,
        TraceAnchor { position: e, start_layer: a2.start_layer, end_layer: a2.end_layer },
    );
}

fn collapse(
    optimized: &mut Vec<TraceAnchor>,
    i: usize,
    s: FixedVec2,
    e: FixedVec2,
    n: Direction,
)
    requires
        valid_path(old(optimized)@),
        i + 3 < old(optimized)@.len(),
    ensures
        final(optimized)@ == collapsed(old(optimized)@, i as int, s, e, n),
{
    let len = optimized.len();
    proof {
        assert(in_range(optimized@[i as int].position@));
        assert(in_range(optimized@[i + 1].position@));
        assert(in_range(optimized@[i + 2].position@));
        assert(in_range(optimized@[i + 3].position@));
    }
    let p0 = optimized[i].position;
    let p1 = optimized[i + 1].position;
    let p2 = optimized[i + 2].position;
    let p3 = optimized[i + 3].position;
    let r1 = exec_depth(
        p0.x.bits as i64 - p1.x.bits as i64,
        p0.y.bits as i64 - p1.y.bits as i64,
        n,
    );
    let r2 = exec_depth(
        p3.x.bits as i64 - p2.x.bits as i64,
        p3.y.bits as i64 - p2.y.bits as i64,
        n,
    );
    place_two(optimized, i, s, e);
    if r1 < r2 && p0 == s {
        optimized.remove(i + 1);
    } else if r1 > r2 && p3 == e {
        optimized.remove(i + 2);
    } else if p0 == s && p3 == e {
        optimized.remove(i + 2);
        optimized.remove(i + 1);
    }
}

fn exec_collapse_ends(a: &Vec<TraceAnchor>, i: usize) -> (r: Option<
    (FixedVec2, FixedVec2, (Direction, Direction, Direction, Direction), i64),
>)
    requires
        valid_path(a@),
        i + 3 < a@.len(),
    ensures
        match r {
            Some((s, e, fr, m)) => collapse_ends(a@, i as int) == Some((s, e)) && window_frame(
                a@,
                i as int,
            ) == Some(fr) && m == room(a@, i as int, fr.3) && 1 <= m <= 0x4000_0000
                && ends_aligned(a@, i as int, s, e),
            None => collapse_ends(a@, i as int).is_none(),
        },
{
    let len = a.len();
    let fr = match frame(a, i) {
        Some(fr) => fr,
        None => {
            return None;
        },
    };
    let n = fr.3;
    let m = exec_room(a, i, n);
    if m < 1 {
        return None;
    }
    proof {
        assert(in_range(a@[i + 1].position@));
    }
    let off = if n.is_diagonal() {
        m / 2
    } else {
        m
    };
    assert(off == full_offset(n, m as int));
    let base = exec_pushed(a[i + 1].position, n, off);
    match exec_corners(a, i, fr.0, fr.1, fr.2, base) {
        Some((s, e)) => {
            proof {
                lemma_corners_aligned(a@, i as int, base@, s, e);
            }
            Some((s, e, fr, m))
        },
        None => None,
    }
}

fn exec_push_ends<F: Fn(FixedVec2, FixedVec2, usize) -> bool>(
    f: &F,
    a: &Vec<TraceAnchor>,
    i: usize,
    fr: (Direction, Direction, Direction, Direction),
    m: i64,
) -> (r: Option<(FixedVec2, FixedVec2)>)
    requires
        trace_oracle(f),
        valid_path(a@),
        i + 3 < a@.len(),
        window_frame(a@, i as int) == Some(fr),
        m == room(a@, i as int, fr.3),
        1 <= m <= 0x4000_0000,
    ensures
        r == push_ends(f, a@, i as int),
        r.is_some() ==> ends_aligned(a@, i as int, r.unwrap().0, r.unwrap().1),
{
    let len = a.len();
    let reach = search_push(f, a, i, fr, m);
    if reach == 0 {
        return None;
    }
    proof {
        assert(in_range(a@[i + 2].position@));
    }
    let base = exec_pushed(a[i + 2].position, fr.3, reach);
    match exec_corners(a, i, fr.0, fr.1, fr.2, base) {
        Some((s, e)) => {
            proof {
                lemma_corners_aligned(a@, i as int, base@, s, e);
            }
            Some((s, e))
        },
        None => None,
    }
}

/// Whether `q` lies on the straight way from `p` to `r`, the ends
/// included.
fn within_step(p: FixedVec2, q: FixedVec2, r: FixedVec2) -> (ok: bool)
    ensures
        ok == lies_within(p, q, r),
{
    if q == p || q == r {
        return true;
    }
    match (Direction::from_points(p, q), Direction::from_points(q, r)) {
        (Ok(Some(d1)), Ok(Some(d2))) => d1 == d2,
        _ => false,
    }
}

fn on_steps(a: &Vec<TraceAnchor>, i: usize, s: FixedVec2, e: FixedVec2) -> (ok: bool)
    requires
        i + 3 < a@.len(),
    ensures
        ok == ends_on_steps(a@, i as int, s, e),
{
    let n = a.len();
    within_step(a[i].position, s, a[i + 1].position) && within_step(
        a[i + 2].position,
        e,
        a[i + 3].position,
    )
}

/// Moves the middle step of window `i` to the ends `s` and `e`, if they
/// lie within the coordinate limit and on the outer steps.
fn flatten(
    optimized: &mut Vec<TraceAnchor>,
    i: usize,
    s: FixedVec2,
    e: FixedVec2,
    n: Direction,
) -> (r: bool)
    requires
        valid_path(old(optimized)@),
        i + 3 < old(optimized)@.len(),
        same_layer(old(optimized)@[i + 1]),
        same_layer(old(optimized)@[i + 2]),
        ends_aligned(old(optimized)@, i as int, s, e),
    ensures
        r == (in_range(s@) && in_range(e@) && ends_on_steps(old(optimized)@, i as int, s, e)),
        r ==> final(optimized)@ == collapsed(old(optimized)@, i as int, s, e, n),
        !r ==> final(optimized)@ == old(optimized)@,
        valid_path(final(optimized)@),
        keeps_route(old(optimized)@, final(optimized)@),
{
    if within_limit(s.x.bits as i64, s.y.bits as i64) && within_limit(
        e.x.bits as i64,
        e.y.bits as i64,
    ) && on_steps(optimized, i, s, e) {
        proof {
            lemma_collapsed_valid(optimized@, i as int, s, e, n);
        }
        collapse(optimized, i, s, e, n);
        true
    } else {
        false
    }
}

/// Places the middle anchors of window `i` at `s` and `e`, if these lie
/// within the coordinate limit and on the outer steps.
fn move_ends(optimized: &mut Vec<TraceAnchor>, i: usize, s: FixedVec2, e: FixedVec2) -> (r: bool)
    requires
        valid_path(old(optimized)@),
        i + 3 < old(optimized)@.len(),
        same_layer(old(optimized)@[i + 1]),
        same_layer(old(optimized)@[i + 2]),
        ends_aligned(old(optimized)@, i as int, s, e),
    ensures
        r == (in_range(s@) && in_range(e@) && ends_on_steps(old(optimized)@, i as int, s, e)),
        r ==> final(optimized)@ == old(optimized)@.update(
            i + 1,
            placed(old(optimized)@[i + 1], s),
        ).update(i + 2, placed(old(optimized)@[i + 2], e)),
        !r ==> final(optimized)@ == old(optimized)@,
        valid_path(final(optimized)@),
        keeps_route(old(optimized)@, final(optimized)@),
{
    if within_limit(s.x.bits as i64, s.y.bits as i64) && within_limit(
        e.x.bits as i64,
        e.y.bits as i64,
    ) && on_steps(optimized, i, s, e) {
        proof {
            lemma_replace_two(optimized@, i + 1, s, e);
        }
        place_two(optimized, i, s, e);
        true
    } else {
        false
    }
}

/// Moves the middle step of window `i` as far as a search by halving
/// finds room, if its new ends lie within the coordinate limit and on the
/// outer steps.
fn push_in<F: Fn(FixedVec2, FixedVec2, usize) -> bool>(
    optimized: &mut Vec<TraceAnchor>,
    i: usize,
    f: &F,
    fr: (Direction, Direction, Direction, Direction),
    m: i64,
) -> (r: bool)
    requires
        trace_oracle(f),
        valid_path(old(optimized)@),
        i + 3 < old(optimized)@.len(),
        window_frame(old(optimized)@, i as int) == Some(fr),
        m == room(old(optimized)@, i as int, fr.3),
        1 <= m <= 0x4000_0000,
    ensures
        match push_ends(f, old(optimized)@, i as int) {
            Some((s, e)) => r == (in_range(s@) && in_range(e@) && ends_on_steps(
                old(optimized)@,
                i as int,
                s,
                e,
            )) && (r ==> final(optimized)@ == old(optimized)@.update(
                i + 1,
                placed(old(optimized)@[i + 1], s),
            ).update(i + 2, placed(old(optimized)@[i + 2], e))),
            None => !r,
        },
        !r ==> final(optimized)@ == old(optimized)@,
        valid_path(final(optimized)@),
        keeps_route(old(optimized)@, final(optimized)@),
{
    match exec_push_ends(f, optimized, i, fr, m) {
        Some((s2, e2)) => move_ends(optimized, i, s2, e2),
        None => false,
    }
}

fn convex_here<F: Fn(FixedVec2, FixedVec2, usize) -> bool>(
    optimized: &mut Vec<TraceAnchor>,
    i: usize,
    f: &F,
) -> (r: bool)
    requires
        valid_path(old(optimized)@),
        trace_oracle(f),
        i + 3 < old(optimized)@.len(),
    ensures
        r ==> convex_outcome(f, old(optimized)@, i as int) == Some(final(optimized)@),
        !r ==> final(optimized)@ == old(optimized)@ && convex_outcome(
            f,
            old(optimized)@,
            i as int,
        ).is_none(),
        valid_path(final(optimized)@),
        keeps_route(old(optimized)@, final(optimized)@),
{
    proof {
        reveal(convex_outcome);
    }
    let len = optimized.len();
    let (s, e, fr, m) = match exec_collapse_ends(optimized, i) {
        Some(c) => c,
        None => {
            return false;
        },
    };
    let layer = optimized[i].end_layer;
    let p1 = optimized[i + 1].position;
    if s == p1 || s == e {
        return false;
    }
    if !ask(f, s, e, layer) {
        flatten(optimized, i, s, e, fr.3)
    } else {
        push_in(optimized, i, f, fr, m)
    }
}

/// Beyond the last window of four anchors nothing is rewritten.
proof fn lemma_no_window<F: Fn(FixedVec2, FixedVec2, usize) -> bool>(
    f: &F,
    a: Seq<TraceAnchor>,
    j: int,
)
    requires
        j < 0 || j + 3 >= a.len(),
    ensures
        convex_outcome(f, a, j).is_none(),
{
    reveal(convex_outcome);
}

/// Rewrites the first bulge that the oracle lets it flatten. Returns
/// whether the path changed.
pub fn try_convex_and_merge<F: Fn(FixedVec2, FixedVec2, usize) -> bool>(
    optimized: &mut Vec<TraceAnchor>,
    check_collision_for_trace: &F,
) -> (r: bool)
    requires
        valid_path(old(optimized)@),
        trace_oracle(check_collision_for_trace),
    ensures
        r ==> exists|i: int|
            #[trigger] first_convex(check_collision_for_trace, old(optimized)@, i)
                && convex_outcome(check_collision_for_trace, old(optimized)@, i) == Some(
                final(optimized)@,
            ),
        !r ==> final(optimized)@ == old(optimized)@ && forall|j: int|
            0 <= j ==> convex_outcome(check_collision_for_trace, old(optimized)@, j).is_none(),
        valid_path(final(optimized)@),
        old(optimized)@.len() >= 1 ==> keeps_route(old(optimized)@, final(optimized)@),
{
    let n = optimized.len();
    if n < 4 {
        proof {
            assert forall|j: int| 0 <= j implies convex_outcome(
                check_collision_for_trace,
                optimized@,
                j,
            ).is_none() by {
                lemma_no_window(check_collision_for_trace, optimized@, j);
            }
        }
        return false;
    }
    let mut i: usize = 0;
    while i < n - 3
        invariant
            n == optimized@.len(),
            n >= 4,
            i <= n - 3,
            optimized@ == old(optimized)@,
            valid_path(optimized@),
            trace_oracle(check_collision_for_trace),
            forall|j: int|
                0 <= j < i ==> convex_outcome(check_collision_for_trace, optimized@, j).is_none(),
        decreases n - i,
    {
        if convex_here(optimized, i, check_collision_for_trace) {
            assert(first_convex(check_collision_for_trace, old(optimized)@, i as int)
                && convex_outcome(check_collision_for_trace, old(optimized)@, i as int) == Some(
                optimized@,
            ));
            return true;
        }
        i = i + 1;
    }
    proof {
        assert forall|j: int| 0 <= j implies convex_outcome(
            check_collision_for_trace,
            optimized@,
            j,
        ).is_none() by {
            if j >= i {
                lemma_no_window(check_collision_for_trace, optimized@, j);
            }
        }
    }
    false
}


/// Whether `g` can be asked for the pieces to test at every length and
/// gives each length a single answer.
pub open spec fn traces_fn<G: Fn(FixedPoint) -> Vec<(FixedVec2, FixedVec2)>>(g: &G) -> bool {
    &&& forall|len: FixedPoint| call_requires(g, (len,))
    &&& forall|len: FixedPoint, v: Vec<(FixedVec2, FixedVec2)>, w: Vec<(FixedVec2, FixedVec2)>|
        call_ensures(g, (len,), v) && call_ensures(g, (len,), w) ==> v@ == w@
}

/// Whether the oracle reports a collision for one of the non-empty
/// pieces.
pub open spec fn pieces_blocked<F: Fn(FixedVec2, FixedVec2, usize) -> bool>(
    f: &F,
    v: Seq<(FixedVec2, FixedVec2)>,
    layer: usize,
) -> bool {
    exists|k: int| 0 <= k < v.len() && piece_blocked(f, #[trigger] v[k], layer)
}

/// Whether a piece is non-empty and the oracle reports a collision for
/// it.
pub open spec fn piece_blocked<F: Fn(FixedVec2, FixedVec2, usize) -> bool>(
    f: &F,
    piece: (FixedVec2, FixedVec2),
    layer: usize,
) -> bool {
    piece.0 != piece.1 && blocked(f, piece.0, piece.1, layer)
}

/// Whether one of the pieces that `g` gives for `len` collides.
pub open spec fn probe_blocked<
    G: Fn(FixedPoint) -> Vec<(FixedVec2, FixedVec2)>,
    F: Fn(FixedVec2, FixedVec2, usize) -> bool,
>(g: &G, f: &F, len: int, layer: usize) -> bool {
    exists|v: Vec<(FixedVec2, FixedVec2)>|
        #[trigger] call_ensures(g, (FixedPoint { bits: len as i32 },), v) && pieces_blocked(
            f,
            v@,
            layer,
        )
}

/// The question that the search asks at each length.
pub open spec fn probe_question<
    G: Fn(FixedPoint) -> Vec<(FixedVec2, FixedVec2)>,
    F: Fn(FixedVec2, FixedVec2, usize) -> bool,
>(g: &G, f: &F, layer: usize) -> spec_fn(int) -> bool {
    |len: int| probe_blocked(g, f, len, layer)
}

fn any_piece_blocked<F: Fn(FixedVec2, FixedVec2, usize) -> bool>(
    f: &F,
    v: &Vec<(FixedVec2, FixedVec2)>,
    layer: usize,
) -> (r: bool)
    requires
        trace_oracle(f),
    ensures
        r == pieces_blocked(f, v@, layer),
{
    let mut k: usize = 0;
    while k < v.len()
        invariant
            trace_oracle(f),
            k <= v@.len(),
            forall|j: int| 0 <= j < k ==> !piece_blocked(f, #[trigger] v@[j], layer),
        decreases v@.len() - k,
    {
        let piece = v[k];
        if piece.0 != piece.1 && ask(f, piece.0, piece.1, layer) {
            assert(piece_blocked(f, v@[k as int], layer));
            return true;
        }
        k = k + 1;
    }
    false
}

/// Searches by halving between two lengths for the last length at which
/// none of the pieces given by `length_to_traces` collides.
pub fn binary_approach_to_obstacles<
    G: Fn(FixedPoint) -> Vec<(FixedVec2, FixedVec2)>,
    F: Fn(FixedVec2, FixedVec2, usize) -> bool,
>(
    length_to_traces: &G,
    start_length: FixedPoint,
    end_length: FixedPoint,
    check_collision_for_trace: &F,
    layer: usize,
) -> (r: FixedPoint)
    requires
        traces_fn(length_to_traces),
        trace_oracle(check_collision_for_trace),
        0 <= start_length@ < end_length@,
    ensures
        r@ == bisect(
            start_length@,
            end_length@,
            probe_question(length_to_traces, check_collision_for_trace, layer),
        ),
        start_length@ <= r@ < end_length@,
{
    let mut lo: i32 = start_length.bits;
    let mut hi: i32 = end_length.bits;
    while lo + 1 < hi
        invariant
            traces_fn(length_to_traces),
            trace_oracle(check_collision_for_trace),
            0 <= start_length@ <= lo < hi <= end_length@,
            bisect(
                lo as int,
                hi as int,
                probe_question(length_to_traces, check_collision_for_trace, layer),
            ) == bisect(
                start_length@,
                end_length@,
                probe_question(length_to_traces, check_collision_for_trace, layer),
            ),
        decreases hi - lo,
    {
        let mid: i32 = lo + (hi - lo) / 2;
        let traces = length_to_traces(FixedPoint { bits: mid });
        let hit = any_piece_blocked(check_collision_for_trace, &traces, layer);
        assert(hit == probe_blocked(
            length_to_traces,
            check_collision_for_trace,
            mid as int,
            layer,
        ));
        assert(hit == probe_question(length_to_traces, check_collision_for_trace, layer)(
            mid as int,
        ));
        if hit {
            hi = mid;
        } else {
            lo = mid;
        }
    }
    FixedPoint { bits: lo }
}

/// The path with the first mergeable anchor removed, if there is one.
pub open spec fn merge_once(a: Seq<TraceAnchor>) -> Option<Seq<TraceAnchor>> {
    if exists|i: int| first_mergeable(a, i) {
        Some(a.remove((choose|i: int| first_mergeable(a, i)) + 1))
    } else {
        None
    }
}

/// The path with the first cuttable anchor doubled, if there is one.
pub open spec fn cut_once(a: Seq<TraceAnchor>) -> Option<Seq<TraceAnchor>> {
    if exists|i: int| first_cuttable(a, i) {
        let i = choose|i: int| first_cuttable(a, i);
        Some(a.insert(i + 2, a[i + 1]))
    } else {
        None
    }
}

/// The path with the first step aside that can be rewritten rewritten,
/// if there is one.
pub open spec fn shift_once<F: Fn(FixedVec2, FixedVec2, usize) -> bool>(
    f: &F,
    a: Seq<TraceAnchor>,
) -> Option<Seq<TraceAnchor>> {
    if exists|i: int| first_shift(f, a, i) {
        shift_outcome(f, a, choose|i: int| first_shift(f, a, i))
    } else {
        None
    }
}

/// The path with the first bulge that can be rewritten rewritten, if
/// there is one.
pub open spec fn convex_once<F: Fn(FixedVec2, FixedVec2, usize) -> bool>(
    f: &F,
    a: Seq<TraceAnchor>,
) -> Option<Seq<TraceAnchor>> {
    if exists|i: int| first_convex(f, a, i) {
        convex_outcome(f, a, choose|i: int| first_convex(f, a, i))
    } else {
        None
    }
}

/// The path with mergeable anchors removed, the first one first, until
/// none is left.
pub open spec fn merged(a: Seq<TraceAnchor>) -> Seq<TraceAnchor>
    decreases a.len(),
{
    match merge_once(a) {
        Some(b) => if b.len() < a.len() {
            merged(b)
        } else {
            a
        },
        None => a,
    }
}

/// What a pass of rewrites leaves: the path, how many rewrites may still
/// be made, and whether a rewrite has succeeded.
pub struct PassResult {
    pub path: Seq<TraceAnchor>,
    pub left: nat,
    pub success: bool,
}

/// Steps aside are rewritten, the first one first, until none can be or
/// no rewrite may be made any more.
pub open spec fn shift_pass<F: Fn(FixedVec2, FixedVec2, usize) -> bool>(
    f: &F,
    p: PassResult,
) -> PassResult
    decreases p.left,
{
    if p.left > 0 {
        match shift_once(f, p.path) {
            Some(b) => shift_pass(f, PassResult { path: b, left: (p.left - 1) as nat, success: true }),
            None => p,
        }
    } else {
        p
    }
}

/// Bulges are rewritten, the first one first, until none can be or no
/// rewrite may be made any more.
pub open spec fn convex_pass<F: Fn(FixedVec2, FixedVec2, usize) -> bool>(
    f: &F,
    p: PassResult,
) -> PassResult
    decreases p.left,
{
    if p.left > 0 {
        match convex_once(f, p.path) {
            Some(b) => convex_pass(
                f,
                PassResult { path: b, left: (p.left - 1) as nat, success: true },
            ),
            None => p,
        }
    } else {
        p
    }
}

/// Turns of a quarter turn or more are cut, the first one first, each
/// cut followed by one attempt to rewrite a bulge, until none can be cut
/// or no rewrite may be made any more. Only a rewritten bulge counts as
/// a success.
pub open spec fn cut_pass<F: Fn(FixedVec2, FixedVec2, usize) -> bool>(
    f: &F,
    p: PassResult,
) -> PassResult
    decreases p.left,
{
    if p.left > 0 {
        match cut_once(p.path) {
            Some(b) => match convex_once(f, b) {
                Some(c) => cut_pass(
                    f,
                    PassResult { path: c, left: (p.left - 1) as nat, success: true },
                ),
                None => cut_pass(
                    f,
                    PassResult { path: b, left: (p.left - 1) as nat, success: p.success },
                ),
            },
            None => p,
        }
    } else {
        p
    }
}

/// One round: a pass over the steps aside, a pass over the bulges, and
/// a pass over the turns to cut.
pub open spec fn round<F: Fn(FixedVec2, FixedVec2, usize) -> bool>(
    f: &F,
    a: Seq<TraceAnchor>,
    left: nat,
) -> PassResult {
    cut_pass(f, convex_pass(f, shift_pass(f, PassResult { path: a, left, success: false })))
}

/// Rounds are made until one of them has no success or no rewrite may
/// be made any more.
pub open spec fn rounds<F: Fn(FixedVec2, FixedVec2, usize) -> bool>(
    f: &F,
    a: Seq<TraceAnchor>,
    left: nat,
) -> Seq<TraceAnchor>
    decreases left,
{
    if left == 0 {
        a
    } else {
        let r = round(f, a, left);
        if r.success && 0 < r.left < left {
            rounds(f, r.path, r.left)
        } else {
            r.path
        }
    }
}

/// What the post-processor makes of a path when it may make
/// `max_rewrites` rewrites: it merges, makes its rounds, and merges
/// again.
pub open spec fn optimized<F: Fn(FixedVec2, FixedVec2, usize) -> bool>(
    f: &F,
    a: Seq<TraceAnchor>,
    max_rewrites: nat,
) -> Seq<TraceAnchor> {
    merged(rounds(f, merged(a), max_rewrites))
}

/// A pass never gives rewrites back, and a pass with a new success has
/// used one.
pub proof fn lemma_pass_uses_rewrites<F: Fn(FixedVec2, FixedVec2, usize) -> bool>(f: &F, p: PassResult)
    ensures
        shift_pass(f, p).left <= p.left,
        convex_pass(f, p).left <= p.left,
        cut_pass(f, p).left <= p.left,
        shift_pass(f, p).success && !p.success ==> shift_pass(f, p).left < p.left,
        convex_pass(f, p).success && !p.success ==> convex_pass(f, p).left < p.left,
        cut_pass(f, p).success && !p.success ==> cut_pass(f, p).left < p.left,
        p.success ==> shift_pass(f, p).success && convex_pass(f, p).success && cut_pass(
            f,
            p,
        ).success,
    decreases p.left,
{
    if p.left > 0 {
        match shift_once(f, p.path) {
            Some(b) => {
                lemma_pass_uses_rewrites(
                    f,
                    PassResult { path: b, left: (p.left - 1) as nat, success: true },
                );
            },
            None => {},
        }
        match convex_once(f, p.path) {
            Some(b) => {
                lemma_pass_uses_rewrites(
                    f,
                    PassResult { path: b, left: (p.left - 1) as nat, success: true },
                );
            },
            None => {},
        }
        match cut_once(p.path) {
            Some(b) => {
                match convex_once(f, b) {
                    Some(c) => {
                        lemma_pass_uses_rewrites(
                            f,
                            PassResult { path: c, left: (p.left - 1) as nat, success: true },
                        );
                    },
                    None => {
                        lemma_pass_uses_rewrites(
                            f,
                            PassResult { path: b, left: (p.left - 1) as nat, success: p.success },
                        );
                    },
                }
            },
            None => {},
        }
    }
}

/// Whether none of the rewrites applies anywhere on the path.
pub open spec fn settled<F: Fn(FixedVec2, FixedVec2, usize) -> bool>(
    f: &F,
    a: Seq<TraceAnchor>,
) -> bool {
    &&& forall|j: int| !mergeable(a, j)
    &&& forall|j: int| !cuttable(a, j)
    &&& forall|j: int| 0 <= j ==> shift_outcome(f, a, j).is_none()
    &&& forall|j: int| 0 <= j ==> convex_outcome(f, a, j).is_none()
}

fn merge_step(optimized: &mut Vec<TraceAnchor>) -> (r: bool)
    requires
        valid_path(old(optimized)@),
        old(optimized)@.len() >= 1,
    ensures
        valid_path(final(optimized)@),
        keeps_route(old(optimized)@, final(optimized)@),
        match merge_once(old(optimized)@) {
            Some(b) => r && final(optimized)@ == b && b.len() < old(optimized)@.len(),
            None => !r && final(optimized)@ == old(optimized)@,
        },
{
    let r = try_merge_path(optimized);
    proof {
        if r {
            let i = choose|i: int| #[trigger]
                first_mergeable(old(optimized)@, i) && optimized@ == old(optimized)@.remove(i + 1);
            let j = choose|j: int| first_mergeable(old(optimized)@, j);
            assert(mergeable(old(optimized)@, i) && mergeable(old(optimized)@, j));
            assert(i == j);
        } else {
            assert forall|i: int| !first_mergeable(old(optimized)@, i) by {
                assert(!mergeable(old(optimized)@, i));
            }
        }
    }
    r
}

fn cut_only_step(optimized: &mut Vec<TraceAnchor>) -> (r: bool)
    requires
        valid_path(old(optimized)@),
        old(optimized)@.len() >= 1,
    ensures
        valid_path(final(optimized)@),
        keeps_route(old(optimized)@, final(optimized)@),
        match cut_once(old(optimized)@) {
            Some(b) => r && final(optimized)@ == b,
            None => !r && final(optimized)@ == old(optimized)@,
        },
{
    let r = try_cut_right_or_sharp_angle(optimized);
    proof {
        if r {
            let i = choose|i: int| #[trigger]
                first_cuttable(old(optimized)@, i) && optimized@ == old(optimized)@.insert(
                    i + 2,
                    old(optimized)@[i + 1],
                );
            let j = choose|j: int| first_cuttable(old(optimized)@, j);
            assert(cuttable(old(optimized)@, i) && cuttable(old(optimized)@, j));
            assert(i == j);
        } else {
            assert forall|i: int| !first_cuttable(old(optimized)@, i) by {
                assert(!cuttable(old(optimized)@, i));
            }
        }
    }
    r
}

fn shift_step<F: Fn(FixedVec2, FixedVec2, usize) -> bool>(
    optimized: &mut Vec<TraceAnchor>,
    f: &F,
) -> (r: bool)
    requires
        valid_path(old(optimized)@),
        old(optimized)@.len() >= 1,
        trace_oracle(f),
    ensures
        valid_path(final(optimized)@),
        keeps_route(old(optimized)@, final(optimized)@),
        match shift_once(f, old(optimized)@) {
            Some(b) => r && final(optimized)@ == b,
            None => !r && final(optimized)@ == old(optimized)@,
        },
        stays_clear(f, old(optimized)@, final(optimized)@),
{
    let r = try_parallel_shift(optimized, f);
    proof {
        if r {
            let i = choose|i: int| #[trigger]
                first_shift(f, old(optimized)@, i) && shift_outcome(f, old(optimized)@, i) == Some(
                    optimized@,
                );
            let j = choose|j: int| first_shift(f, old(optimized)@, j);
            assert(shift_window(old(optimized)@, i) && shift_window(old(optimized)@, j));
            assert(i == j);
        } else {
            assert forall|i: int| !first_shift(f, old(optimized)@, i) by {
                if i >= 0 {
                    assert(shift_outcome(f, old(optimized)@, i).is_none());
                } else {
                    assert(!shift_window(old(optimized)@, i));
                }
            }
        }
    }
    proof {
        if r && geometric(f) && steps_clear(f, old(optimized)@) {
            lemma_shift_once_keeps_clear(f, old(optimized)@);
        }
    }
    r
}

fn convex_step<F: Fn(FixedVec2, FixedVec2, usize) -> bool>(
    optimized: &mut Vec<TraceAnchor>,
    f: &F,
) -> (r: bool)
    requires
        valid_path(old(optimized)@),
        old(optimized)@.len() >= 1,
        trace_oracle(f),
    ensures
        valid_path(final(optimized)@),
        keeps_route(old(optimized)@, final(optimized)@),
        match convex_once(f, old(optimized)@) {
            Some(b) => r && final(optimized)@ == b,
            None => !r && final(optimized)@ == old(optimized)@,
        },
        stays_clear(f, old(optimized)@, final(optimized)@),
{
    let r = try_convex_and_merge(optimized, f);
    proof {
        reveal(convex_outcome);
        if r {
            let i = choose|i: int| #[trigger]
                first_convex(f, old(optimized)@, i) && convex_outcome(f, old(optimized)@, i)
                    == Some(optimized@);
            let j = choose|j: int| first_convex(f, old(optimized)@, j);
            assert(window_frame(old(optimized)@, i).is_some());
            assert(window_frame(old(optimized)@, j).is_some());
            assert(i == j);
        } else {
            assert forall|i: int| !first_convex(f, old(optimized)@, i) by {
                if i >= 0 {
                    assert(convex_outcome(f, old(optimized)@, i).is_none());
                } else {
                    assert(window_frame(old(optimized)@, i).is_none());
                }
            }
        }
    }
    proof {
        if r && geometric(f) && steps_clear(f, old(optimized)@) {
            lemma_convex_once_keeps_clear(f, old(optimized)@);
        }
    }
    r
}

/// No rewrite applies to a settled path.
proof fn lemma_settled_once<F: Fn(FixedVec2, FixedVec2, usize) -> bool>(f: &F, a: Seq<TraceAnchor>)
    requires
        settled(f, a),
    ensures
        merge_once(a).is_none(),
        cut_once(a).is_none(),
        shift_once(f, a).is_none(),
        convex_once(f, a).is_none(),
        merged(a) == a,
{
    assert forall|i: int| !first_mergeable(a, i) by {
        assert(!mergeable(a, i));
    }
    assert forall|i: int| !first_cuttable(a, i) by {
        assert(!cuttable(a, i));
    }
    assert forall|i: int| !first_shift(f, a, i) by {
        if i >= 0 {
            assert(shift_outcome(f, a, i).is_none());
        } else {
            assert(!shift_window(a, i));
        }
    }
    assert forall|i: int| !first_convex(f, a, i) by {
        reveal(convex_outcome);
        if i >= 0 {
            assert(convex_outcome(f, a, i).is_none());
        } else {
            assert(window_frame(a, i).is_none());
        }
    }
}

/// The post-processor leaves a settled path as it is.
pub proof fn lemma_settled_is_fixed<F: Fn(FixedVec2, FixedVec2, usize) -> bool>(
    f: &F,
    a: Seq<TraceAnchor>,
    max_rewrites: nat,
)
    requires
        settled(f, a),
    ensures
        optimized(f, a, max_rewrites) == a,
{
    lemma_settled_once(f, a);
    if max_rewrites > 0 {
        let p0 = PassResult { path: a, left: max_rewrites, success: false };
        assert(shift_pass(f, p0) == p0);
        assert(convex_pass(f, p0) == p0);
        assert(cut_pass(f, p0) == p0);
        assert(round(f, a, max_rewrites) == p0);
    }
}

fn merge_all(optimized: &mut Vec<TraceAnchor>)
    requires
        valid_path(old(optimized)@),
        old(optimized)@.len() >= 1,
    ensures
        valid_path(final(optimized)@),
        keeps_route(old(optimized)@, final(optimized)@),
        final(optimized)@ == merged(old(optimized)@),
        forall|j: int| !mergeable(final(optimized)@, j),
{
    let mut going = true;
    while going
        invariant
            valid_path(optimized@),
            keeps_route(old(optimized)@, optimized@),
            going ==> merged(optimized@) == merged(old(optimized)@),
            !going ==> optimized@ == merged(old(optimized)@) && merge_once(optimized@).is_none(),
        decreases optimized@.len(), going as int,
    {
        going = merge_step(optimized);
    }
    proof {
        assert forall|j: int| !mergeable(optimized@, j) by {
            if mergeable(optimized@, j) {
                lemma_some_first_mergeable(optimized@, j);
            }
        }
    }
}

/// Where an anchor can be merged away, there is a first such anchor.
proof fn lemma_some_first_mergeable(a: Seq<TraceAnchor>, j: int)
    requires
        mergeable(a, j),
    ensures
        exists|i: int| first_mergeable(a, i),
    decreases j,
{
    if forall|k: int| 0 <= k < j ==> !mergeable(a, k) {
        assert(first_mergeable(a, j));
    } else {
        let k = choose|k: int| 0 <= k < j && mergeable(a, k);
        lemma_some_first_mergeable(a, k);
    }
}

/// The state of a pass as a pass result.
pub open spec fn pass_state(path: Seq<TraceAnchor>, left: usize, success: bool) -> PassResult {
    PassResult { path, left: left as nat, success }
}

fn pass_over_shifts<F: Fn(FixedVec2, FixedVec2, usize) -> bool>(
    optimized: &mut Vec<TraceAnchor>,
    f: &F,
    left: usize,
    success: bool,
) -> (r: (usize, bool))
    requires
        valid_path(old(optimized)@),
        old(optimized)@.len() >= 1,
        trace_oracle(f),
    ensures
        valid_path(final(optimized)@),
        keeps_route(old(optimized)@, final(optimized)@),
        pass_state(final(optimized)@, r.0, r.1) == shift_pass(
            f,
            pass_state(old(optimized)@, left, success),
        ),
        stays_clear(f, old(optimized)@, final(optimized)@),
{
    let mut left = left;
    let mut success = success;
    let mut going = true;
    let ghost p0 = pass_state(optimized@, left, success);
    while going && left > 0
        invariant
            valid_path(optimized@),
            keeps_route(old(optimized)@, optimized@),
            stays_clear(f, old(optimized)@, optimized@),
            trace_oracle(f),
            shift_pass(f, pass_state(optimized@, left, success)) == shift_pass(f, p0),
            !going ==> shift_once(f, optimized@).is_none(),
        decreases left, going as int,
    {
        if shift_step(optimized, f) {
            success = true;
            left = left - 1;
        } else {
            going = false;
        }
    }
    (left, success)
}

fn pass_over_bulges<F: Fn(FixedVec2, FixedVec2, usize) -> bool>(
    optimized: &mut Vec<TraceAnchor>,
    f: &F,
    left: usize,
    success: bool,
) -> (r: (usize, bool))
    requires
        valid_path(old(optimized)@),
        old(optimized)@.len() >= 1,
        trace_oracle(f),
    ensures
        valid_path(final(optimized)@),
        keeps_route(old(optimized)@, final(optimized)@),
        pass_state(final(optimized)@, r.0, r.1) == convex_pass(
            f,
            pass_state(old(optimized)@, left, success),
        ),
        stays_clear(f, old(optimized)@, final(optimized)@),
{
    let mut left = left;
    let mut success = success;
    let mut going = true;
    let ghost p0 = pass_state(optimized@, left, success);
    while going && left > 0
        invariant
            valid_path(optimized@),
            keeps_route(old(optimized)@, optimized@),
            stays_clear(f, old(optimized)@, optimized@),
            trace_oracle(f),
            convex_pass(f, pass_state(optimized@, left, success)) == convex_pass(f, p0),
            !going ==> convex_once(f, optimized@).is_none(),
        decreases left, going as int,
    {
        if convex_step(optimized, f) {
            success = true;
            left = left - 1;
        } else {
            going = false;
        }
    }
    (left, success)
}

fn pass_over_turns<F: Fn(FixedVec2, FixedVec2, usize) -> bool>(
    optimized: &mut Vec<TraceAnchor>,
    f: &F,
    left: usize,
    success: bool,
) -> (r: (usize, bool))
    requires
        valid_path(old(optimized)@),
        old(optimized)@.len() >= 1,
        trace_oracle(f),
    ensures
        valid_path(final(optimized)@),
        keeps_route(old(optimized)@, final(optimized)@),
        pass_state(final(optimized)@, r.0, r.1) == cut_pass(
            f,
            pass_state(old(optimized)@, left, success),
        ),
        stays_clear(f, old(optimized)@, final(optimized)@),
{
    let mut left = left;
    let mut success = success;
    let mut going = true;
    let ghost p0 = pass_state(optimized@, left, success);
    while going && left > 0
        invariant
            valid_path(optimized@),
            keeps_route(old(optimized)@, optimized@),
            stays_clear(f, old(optimized)@, optimized@),
            trace_oracle(f),
            cut_pass(f, pass_state(optimized@, left, success)) == cut_pass(f, p0),
            !going ==> cut_once(optimized@).is_none(),
        decreases left, going as int,
    {
        let ghost before = optimized@;
        if cut_only_step(optimized) {
            proof {
                if geometric(f) && steps_clear(f, before) {
                    lemma_cut_keeps_clear(f, before);
                }
            }
            left = left - 1;
            if convex_step(optimized, f) {
                success = true;
            }
        } else {
            going = false;
        }
    }
    (left, success)
}

/// Shortens a path by merging, shifting, flattening and cutting until no
/// rewrite applies or `max_rewrites` rewrites were made, then merges once
/// more and derives segments, vias and length from the anchors left.
/// Under a geometric oracle a path whose steps are all clear stays so.
pub fn optimize_path<F: Fn(FixedVec2, FixedVec2, usize) -> bool>(
    trace_path: &TracePath,
    check_collision_for_trace: &F,
    trace_width: FixedPoint,
    trace_clearance: FixedPoint,
    via_diameter: FixedPoint,
    max_rewrites: usize,
) -> (r: TracePath)
    requires
        valid_path(trace_path.anchors@),
        trace_path.anchors@.len() >= 1,
        trace_oracle(check_collision_for_trace),
    ensures
        r.anchors@ == optimized(
            check_collision_for_trace,
            trace_path.anchors@,
            max_rewrites as nat,
        ),
        valid_path(r.anchors@),
        keeps_route(trace_path.anchors@, r.anchors@),
        forall|j: int| !mergeable(r.anchors@, j),
        settled(check_collision_for_trace, trace_path.anchors@) ==> r.anchors@
            == trace_path.anchors@,
        r.segments@ == segments_of(r.anchors@, trace_width, trace_clearance),
        r.vias@ == vias_of(r.anchors@, via_diameter, trace_clearance),
        r.total_length.straight == straight_of(r.anchors@, (r.anchors@.len() - 1) as nat),
        r.total_length.diagonal == diagonal_of(r.anchors@, (r.anchors@.len() - 1) as nat),
        stays_clear(check_collision_for_trace, trace_path.anchors@, r.anchors@),
{
    let ghost start = trace_path.anchors@;
    let f = check_collision_for_trace;
    let mut optimized = duplicate_anchors(&trace_path.anchors.0);
    proof {
        if geometric(f) && steps_clear(f, start) {
            lemma_merged_keeps_clear(f, start);
        }
    }
    merge_all(&mut optimized);
    let mut left = max_rewrites;
    let mut has_success = true;
    while has_success && left > 0
        invariant
            valid_path(optimized@),
            keeps_route(start, optimized@),
            trace_oracle(f),
            stays_clear(f, start, optimized@),
            (if has_success && left > 0 {
                rounds(f, optimized@, left as nat)
            } else {
                optimized@
            }) == rounds(f, merged(start), max_rewrites as nat),
        decreases left, has_success as int,
    {
        let ghost a0 = optimized@;
        let ghost left0 = left;
        let (l1, s1) = pass_over_shifts(&mut optimized, f, left, false);
        let ghost a1 = optimized@;
        let (l2, s2) = pass_over_bulges(&mut optimized, f, l1, s1);
        let ghost a2 = optimized@;
        let (l3, s3) = pass_over_turns(&mut optimized, f, l2, s2);
        proof {
            lemma_pass_uses_rewrites(f, pass_state(a0, left0, false));
            lemma_pass_uses_rewrites(f, pass_state(a1, l1, s1));
            lemma_pass_uses_rewrites(f, pass_state(a2, l2, s2));
            assert(pass_state(optimized@, l3, s3) == round(f, a0, left0 as nat));
        }
        left = l3;
        has_success = s3;
    }
    proof {
        if geometric(f) && steps_clear(f, start) {
            lemma_merged_keeps_clear(f, optimized@);
        }
    }
    merge_all(&mut optimized);
    proof {
        if settled(f, start) {
            lemma_settled_is_fixed(f, start, max_rewrites as nat);
        }
    }
    TracePath::from_anchors(TraceAnchors(optimized), trace_width, trace_clearance, via_diameter)
}

/// No rewrite applies to a path of a single anchor.
pub proof fn lemma_lone_anchor_settled<F: Fn(FixedVec2, FixedVec2, usize) -> bool>(
    f: &F,
    a: TraceAnchor,
)
    ensures
        settled(f, seq![a]),
{
    let s = seq![a];
    assert forall|j: int| 0 <= j implies shift_outcome(f, s, j).is_none() by {
        assert(!shift_window(s, j));
    }
    assert forall|j: int| 0 <= j implies convex_outcome(f, s, j).is_none() by {
        reveal(convex_outcome);
        assert(window_frame(s, j).is_none());
        assert(collapse_ends(s, j).is_none());
    }
}

} // verus!
