//! Paths that the oracles report free of collisions, and why the
//! rewrites of the post-processor keep them so.

use vstd::prelude::*;
use crate::astar_check_struct::{path_clear, segment_clear, via_clear};
use crate::direction::chebyshev;
use crate::fixed_point::FixedPoint;
use crate::oracle::{
    bisect, blocked, geometric, lemma_bisect, lemma_parts, lies_between, via_blocked,
};
use crate::post_process::{
    collapse_ends, collapsed, convex_once, convex_outcome, cut_once, ends_on_steps, first_convex,
    first_cuttable, first_mergeable, first_shift, layer_changes, left_corner, lemma_merge_valid,
    merge_once, mergeable, merged, placed, push_blocked, push_ends, push_question, right_corner,
    room, same_layer, shift_once, shift_outcome, shift_window, slide_blocked, slide_length,
    slide_question, step, step_aligned, step_direction, step_empty, valid_path, window_frame,
};
use crate::trace_path::{layers_linked, segments_of, via_at, vias_of, PathView, TraceAnchor};
use crate::vec2::FixedVec2;

verus! {

/// Whether the step from anchor `i` is empty or reported clear on the
/// layer on which the path leaves that anchor.
pub open spec fn step_clear<F: Fn(FixedVec2, FixedVec2, usize) -> bool>(
    f: &F,
    a: Seq<TraceAnchor>,
    i: int,
) -> bool {
    step_empty(a, i) || !blocked(f, a[i].position, a[i + 1].position, a[i].end_layer)
}

/// Whether every step of a path is empty or reported clear.
pub open spec fn steps_clear<F: Fn(FixedVec2, FixedVec2, usize) -> bool>(
    f: &F,
    a: Seq<TraceAnchor>,
) -> bool {
    forall|i: int| 0 <= i < a.len() - 1 ==> #[trigger] step_clear(f, a, i)
}

/// Whether a via is reported clear at `p` on every layer from `from` to
/// `to`, whichever of the two is the lower one.
pub open spec fn span_clear<G: Fn(FixedVec2, usize) -> bool>(
    g: &G,
    p: FixedVec2,
    from: usize,
    to: usize,
) -> bool {
    forall|layer: usize|
        (from <= layer <= to || to <= layer <= from) ==> !#[trigger] via_blocked(g, p, layer)
}

/// Whether a via is reported clear at anchor `x` on every layer between
/// the two layers of the anchor.
pub open spec fn anchor_clear<G: Fn(FixedVec2, usize) -> bool>(g: &G, x: TraceAnchor) -> bool {
    span_clear(g, x.position, x.start_layer, x.end_layer)
}

/// Whether a via is reported clear at every anchor that changes layer.
pub open spec fn changes_clear<G: Fn(FixedVec2, usize) -> bool>(
    g: &G,
    a: Seq<TraceAnchor>,
) -> bool {
    forall|k: int| 0 <= k < layer_changes(a).len() ==> anchor_clear(g, #[trigger] layer_changes(a)[k])
}

/// Whether, under a geometric oracle, every step of `b` is clear when
/// every step of `a` is.
pub open spec fn stays_clear<F: Fn(FixedVec2, FixedVec2, usize) -> bool>(
    f: &F,
    a: Seq<TraceAnchor>,
    b: Seq<TraceAnchor>,
) -> bool {
    geometric(f) && steps_clear(f, a) ==> steps_clear(f, b)
}

/// Dropping an anchor that stays on its layer and stands where one of its
/// neighbours stands keeps every step clear.
pub proof fn lemma_drop_keeps_clear<F: Fn(FixedVec2, FixedVec2, usize) -> bool>(
    f: &F,
    a: Seq<TraceAnchor>,
    k: int,
)
    requires
        0 < k < a.len() - 1,
        same_layer(a[k]),
        a[k - 1].end_layer == a[k].start_layer,
        a[k].position == a[k - 1].position || a[k].position == a[k + 1].position,
        steps_clear(f, a),
    ensures
        steps_clear(f, a.remove(k)),
{
    let b = a.remove(k);
    assert forall|i: int| 0 <= i < b.len() - 1 implies #[trigger] step_clear(f, b, i) by {
        if i < k - 1 {
            assert(step_clear(f, a, i));
        } else if i >= k {
            assert(step_clear(f, a, i + 1));
        } else {
            assert(step_clear(f, a, k - 1));
            assert(step_clear(f, a, k));
        }
    }
}

/// Under a geometric oracle, removing a mergeable anchor keeps every
/// step clear.
pub proof fn lemma_merge_keeps_clear<F: Fn(FixedVec2, FixedVec2, usize) -> bool>(
    f: &F,
    a: Seq<TraceAnchor>,
    i: int,
)
    requires
        geometric(f),
        valid_path(a),
        mergeable(a, i),
        steps_clear(f, a),
    ensures
        steps_clear(f, a.remove(i + 1)),
{
    let b = a.remove(i + 1);
    assert(a[i].end_layer == a[i + 1].start_layer);
    if step_empty(a, i) || step_empty(a, i + 1) {
        lemma_drop_keeps_clear(f, a, i + 1);
    } else {
        assert(step_aligned(a, i));
        assert(step_aligned(a, i + 1));
        assert(lies_between(a[i].position, a[i + 1].position, a[i + 2].position));
        lemma_parts(f, a[i].position, a[i + 1].position, a[i + 2].position, a[i].end_layer);
        assert forall|k: int| 0 <= k < b.len() - 1 implies #[trigger] step_clear(f, b, k) by {
            if k < i {
                assert(step_clear(f, a, k));
            } else if k > i {
                assert(step_clear(f, a, k + 1));
            } else {
                assert(step_clear(f, a, i));
                assert(step_clear(f, a, i + 1));
            }
        }
    }
}

/// Under a geometric oracle, merging keeps every step clear.
pub proof fn lemma_merged_keeps_clear<F: Fn(FixedVec2, FixedVec2, usize) -> bool>(
    f: &F,
    a: Seq<TraceAnchor>,
)
    requires
        geometric(f),
        valid_path(a),
        steps_clear(f, a),
    ensures
        steps_clear(f, merged(a)),
    decreases a.len(),
{
    match merge_once(a) {
        Some(b) => {
            if b.len() < a.len() {
                let i = choose|i: int| first_mergeable(a, i);
                lemma_merge_valid(a, i);
                lemma_merge_keeps_clear(f, a, i);
                lemma_merged_keeps_clear(f, b);
            }
        },
        None => {},
    }
}

/// Doubling an anchor keeps every step clear.
pub proof fn lemma_cut_keeps_clear<F: Fn(FixedVec2, FixedVec2, usize) -> bool>(
    f: &F,
    a: Seq<TraceAnchor>,
)
    requires
        steps_clear(f, a),
        cut_once(a).is_some(),
    ensures
        steps_clear(f, cut_once(a).unwrap()),
{
    let i = choose|i: int| first_cuttable(a, i);
    let b = a.insert(i + 2, a[i + 1]);
    assert forall|k: int| 0 <= k < b.len() - 1 implies #[trigger] step_clear(f, b, k) by {
        if k <= i {
            assert(step_clear(f, a, k));
        } else if k == i + 1 {
            assert(step_empty(b, k));
        } else {
            assert(step_clear(f, a, k - 1));
        }
    }
}

/// Under a geometric oracle, rewriting a step aside keeps every step
/// clear.
pub proof fn lemma_shift_keeps_clear<F: Fn(FixedVec2, FixedVec2, usize) -> bool>(
    f: &F,
    a: Seq<TraceAnchor>,
    i: int,
)
    requires
        geometric(f),
        valid_path(a),
        steps_clear(f, a),
        shift_outcome(f, a, i).is_some(),
    ensures
        steps_clear(f, shift_outcome(f, a, i).unwrap()),
{
    let b = shift_outcome(f, a, i).unwrap();
    let layer = a[i].end_layer;
    let n1 = left_corner(a, i);
    let n2 = right_corner(a, i);
    let len = slide_length(f, a, i);
    let d = step_direction(a, i);
    assert(shift_window(a, i));
    assert(a[i].end_layer == a[i + 1].start_layer);
    assert(a[i + 1].end_layer == a[i + 2].start_layer);
    let back = crate::grid::in_range(n1@) && !blocked(f, a[i].position, n1, layer) && !blocked(
        f,
        n1,
        a[i + 3].position,
        layer,
    );
    let forth = crate::grid::in_range(n2@) && !blocked(f, n2, a[i + 3].position, layer) && !blocked(
        f,
        n2,
        a[i].position,
        layer,
    );
    if back {
        assert forall|k: int| 0 <= k < b.len() - 1 implies #[trigger] step_clear(f, b, k) by {
            if k < i {
                assert(step_clear(f, a, k));
            } else if k > i + 1 {
                assert(step_clear(f, a, k + 1));
            }
        }
    } else if forth {
        assert(blocked(f, n2, a[i].position, layer) == blocked(f, a[i].position, n2, layer));
        assert forall|k: int| 0 <= k < b.len() - 1 implies #[trigger] step_clear(f, b, k) by {
            if k < i {
                assert(step_clear(f, a, k));
            } else if k > i + 1 {
                assert(step_clear(f, a, k + 1));
            }
        }
    } else {
        assert(!step_empty(a, i));
        assert(chebyshev(step(a, i).0, step(a, i).1) > 0);
        lemma_bisect(0, chebyshev(step(a, i).0, step(a, i).1), slide_question(f, a, i));
        assert(len > 0);
        assert(!slide_question(f, a, i)(len));
        assert(!slide_blocked(f, a, i, len));
        assert forall|k: int| 0 <= k < b.len() - 1 implies #[trigger] step_clear(f, b, k) by {
            if k < i {
                assert(step_clear(f, a, k));
            } else if k > i + 2 {
                assert(step_clear(f, a, k));
            }
        }
    }
}

/// Under a geometric oracle, rewriting the first step aside keeps every
/// step clear.
pub proof fn lemma_shift_once_keeps_clear<F: Fn(FixedVec2, FixedVec2, usize) -> bool>(
    f: &F,
    a: Seq<TraceAnchor>,
)
    requires
        geometric(f),
        valid_path(a),
        steps_clear(f, a),
        shift_once(f, a).is_some(),
    ensures
        steps_clear(f, shift_once(f, a).unwrap()),
{
    let i = choose|i: int| first_shift(f, a, i);
    lemma_shift_keeps_clear(f, a, i);
}

/// Under a geometric oracle, a window whose middle step moved keeps every
/// step clear when the new middle step is clear and its ends lie on the
/// outer steps.
proof fn lemma_placed_keeps_clear<F: Fn(FixedVec2, FixedVec2, usize) -> bool>(
    f: &F,
    a: Seq<TraceAnchor>,
    i: int,
    s: FixedVec2,
    e: FixedVec2,
)
    requires
        geometric(f),
        layers_linked(a),
        0 <= i,
        i + 3 < a.len(),
        same_layer(a[i + 1]),
        same_layer(a[i + 2]),
        !step_empty(a, i),
        !step_empty(a, i + 2),
        steps_clear(f, a),
        ends_on_steps(a, i, s, e),
        s == e || !blocked(f, s, e, a[i].end_layer),
    ensures
        steps_clear(f, a.update(i + 1, placed(a[i + 1], s)).update(i + 2, placed(a[i + 2], e))),
{
    let b = a.update(i + 1, placed(a[i + 1], s)).update(i + 2, placed(a[i + 2], e));
    assert(a[i].end_layer == a[i + 1].start_layer);
    assert(a[i + 1].end_layer == a[i + 2].start_layer);
    assert(step_clear(f, a, i));
    assert(step_clear(f, a, i + 2));
    if lies_between(a[i].position, s, a[i + 1].position) {
        lemma_parts(f, a[i].position, s, a[i + 1].position, a[i].end_layer);
    }
    if lies_between(a[i + 2].position, e, a[i + 3].position) {
        lemma_parts(f, a[i + 2].position, e, a[i + 3].position, a[i + 2].end_layer);
    }
    assert forall|k: int| 0 <= k < b.len() - 1 implies #[trigger] step_clear(f, b, k) by {
        if k < i || k > i + 2 {
            assert(step_clear(f, a, k));
        }
    }
}

/// Under a geometric oracle, rewriting a bulge keeps every step clear.
pub proof fn lemma_convex_keeps_clear<F: Fn(FixedVec2, FixedVec2, usize) -> bool>(
    f: &F,
    a: Seq<TraceAnchor>,
    i: int,
)
    requires
        geometric(f),
        valid_path(a),
        steps_clear(f, a),
        convex_outcome(f, a, i).is_some(),
    ensures
        steps_clear(f, convex_outcome(f, a, i).unwrap()),
{
    reveal(convex_outcome);
    let (s, e) = collapse_ends(a, i).unwrap();
    let n = window_frame(a, i).unwrap().3;
    if !blocked(f, s, e, a[i].end_layer) {
        lemma_placed_keeps_clear(f, a, i, s, e);
        let base = a.update(i + 1, placed(a[i + 1], s)).update(i + 2, placed(a[i + 2], e));
        assert(a[i].end_layer == a[i + 1].start_layer);
        assert(a[i + 1].end_layer == a[i + 2].start_layer);
        let b = collapsed(a, i, s, e, n);
        if b == base.remove(i + 1) && a[i].position == s {
            lemma_drop_keeps_clear(f, base, i + 1);
        } else if b == base.remove(i + 2) && a[i + 3].position == e {
            lemma_drop_keeps_clear(f, base, i + 2);
        } else if a[i].position == s && a[i + 3].position == e {
            lemma_drop_keeps_clear(f, base, i + 2);
            lemma_drop_keeps_clear(f, base.remove(i + 2), i + 1);
        }
    } else {
        let m = room(a, i, n);
        let len = bisect(0, m, push_question(f, a, i));
        lemma_bisect(0, m, push_question(f, a, i));
        let (s2, e2) = push_ends(f, a, i).unwrap();
        assert(!push_question(f, a, i)(len));
        assert(!push_blocked(f, a, i, len));
        lemma_placed_keeps_clear(f, a, i, s2, e2);
    }
}

/// Under a geometric oracle, rewriting the first bulge keeps every step
/// clear.
pub proof fn lemma_convex_once_keeps_clear<F: Fn(FixedVec2, FixedVec2, usize) -> bool>(
    f: &F,
    a: Seq<TraceAnchor>,
)
    requires
        geometric(f),
        valid_path(a),
        steps_clear(f, a),
        convex_once(f, a).is_some(),
    ensures
        steps_clear(f, convex_once(f, a).unwrap()),
{
    let i = choose|i: int| first_convex(f, a, i);
    lemma_convex_keeps_clear(f, a, i);
}

/// The vias of a path are those of its anchors that change layer.
pub proof fn lemma_vias_of_changes(a: Seq<TraceAnchor>, diameter: FixedPoint, clearance: FixedPoint)
    ensures
        vias_of(a, diameter, clearance).len() == layer_changes(a).len(),
        forall|k: int|
            0 <= k < layer_changes(a).len() ==> #[trigger] vias_of(a, diameter, clearance)[k]
                == via_at(layer_changes(a)[k], diameter, clearance),
    decreases a.len(),
{
    if a.len() > 0 {
        lemma_vias_of_changes(a.drop_last(), diameter, clearance);
    }
}

/// A path whose steps and changes of layer are clear passes the check of
/// its segments and vias.
pub proof fn lemma_path_is_clear<F: Fn(FixedVec2, FixedVec2, usize) -> bool, G: Fn(FixedVec2, usize) -> bool>(
    f: &F,
    g: &G,
    p: PathView,
    num_layers: usize,
)
    requires
        steps_clear(f, p.anchors),
        changes_clear(g, p.anchors),
        exists|width: FixedPoint, clearance: FixedPoint|
            p.segments == segments_of(p.anchors, width, clearance),
        exists|diameter: FixedPoint, clearance: FixedPoint|
            p.vias == vias_of(p.anchors, diameter, clearance),
    ensures
        path_clear(f, g, p, num_layers),
{
    let a = p.anchors;
    let (width, c1) = choose|width: FixedPoint, clearance: FixedPoint|
        p.segments == segments_of(a, width, clearance);
    let (diameter, c2) = choose|diameter: FixedPoint, clearance: FixedPoint|
        p.vias == vias_of(a, diameter, clearance);
    assert forall|i: int| 0 <= i < p.segments.len() implies segment_clear(
        f,
        #[trigger] p.segments[i],
    ) by {
        assert(step_clear(f, a, i));
    }
    lemma_vias_of_changes(a, diameter, c2);
    assert forall|k: int| 0 <= k < p.vias.len() implies via_clear(
        g,
        #[trigger] p.vias[k],
        num_layers,
    ) by {
        assert(anchor_clear(g, layer_changes(a)[k]));
    }
}

} // verus!
