//! Checking a path that was found earlier against the obstacles of now.

use vstd::prelude::*;
use crate::oracle::{ask, ask_via, blocked, trace_oracle, via_blocked, via_oracle};
use crate::trace_path::{PathView, TracePath, TraceSegment, Via};
use crate::vec2::FixedVec2;

verus! {

/// A path to check.
pub struct AStarCheck {
    pub solution_trace: TracePath,
    pub num_layers: usize,
}

/// Whether a segment is empty or reported clear.
pub open spec fn segment_clear<F: Fn(FixedVec2, FixedVec2, usize) -> bool>(
    f: &F,
    s: TraceSegment,
) -> bool {
    s.start == s.end || !blocked(f, s.start, s.end, s.layer)
}

/// Whether a via is reported clear on each of its layers below
/// `num_layers`.
pub open spec fn via_clear<G: Fn(FixedVec2, usize) -> bool>(g: &G, v: Via, num_layers: usize) -> bool {
    forall|layer: usize|
        v.min_layer <= layer <= v.max_layer && layer < num_layers ==> !#[trigger] via_blocked(
            g,
            v.position,
            layer,
        )
}

/// Whether every segment and every via of a path is clear.
pub open spec fn path_clear<F: Fn(FixedVec2, FixedVec2, usize) -> bool, G: Fn(FixedVec2, usize) -> bool>(
    f: &F,
    g: &G,
    p: PathView,
    num_layers: usize,
) -> bool {
    &&& forall|i: int| 0 <= i < p.segments.len() ==> segment_clear(f, #[trigger] p.segments[i])
    &&& forall|i: int| 0 <= i < p.vias.len() ==> via_clear(g, #[trigger] p.vias[i], num_layers)
}

fn exec_via_clear<G: Fn(FixedVec2, usize) -> bool>(g: &G, v: &Via, num_layers: usize) -> (r: bool)
    requires
        via_oracle(g),
    ensures
        r == via_clear(g, *v, num_layers),
{
    let mut layer = v.min_layer;
    while layer <= v.max_layer && layer < num_layers
        invariant
            via_oracle(g),
            v.min_layer <= layer,
            forall|l: usize|
                v.min_layer <= l < layer && l < num_layers ==> !#[trigger] via_blocked(
                    g,
                    v.position,
                    l,
                ),
        decreases num_layers - layer,
    {
        if ask_via(g, v.position, layer) {
            return false;
        }
        layer = layer + 1;
    }
    true
}

/// Whether every segment and every via of `path` is clear.
pub fn check_path<F: Fn(FixedVec2, FixedVec2, usize) -> bool, G: Fn(FixedVec2, usize) -> bool>(
    path: &TracePath,
    num_layers: usize,
    check_collision_for_trace: &F,
    check_collision_for_via: &G,
) -> (r: bool)
    requires
        trace_oracle(check_collision_for_trace),
        via_oracle(check_collision_for_via),
    ensures
        r == path_clear(check_collision_for_trace, check_collision_for_via, path@, num_layers),
{
    let mut i: usize = 0;
    while i < path.segments.len()
        invariant
            trace_oracle(check_collision_for_trace),
            i <= path.segments@.len(),
            forall|j: int|
                0 <= j < i ==> segment_clear(check_collision_for_trace, #[trigger] path.segments@[j]),
        decreases path.segments@.len() - i,
    {
        let s = path.segments[i];
        if s.start != s.end && ask(check_collision_for_trace, s.start, s.end, s.layer) {
            assert(!segment_clear(check_collision_for_trace, path@.segments[i as int]));
            return false;
        }
        i = i + 1;
    }
    let mut k: usize = 0;
    while k < path.vias.len()
        invariant
            via_oracle(check_collision_for_via),
            k <= path.vias@.len(),
            forall|j: int|
                0 <= j < k ==> via_clear(check_collision_for_via, #[trigger] path.vias@[j], num_layers),
        decreases path.vias@.len() - k,
    {
        if !exec_via_clear(check_collision_for_via, &path.vias[k], num_layers) {
            assert(!via_clear(check_collision_for_via, path@.vias[k as int], num_layers));
            return false;
        }
        k = k + 1;
    }
    true
}

impl AStarCheck {
    /// Whether the path is free of collisions with the obstacles that the
    /// oracles stand for.
    pub fn check<F: Fn(FixedVec2, FixedVec2, usize) -> bool, G: Fn(FixedVec2, usize) -> bool>(
        &self,
        check_collision_for_trace: &F,
        check_collision_for_via: &G,
    ) -> (r: bool)
        requires
            trace_oracle(check_collision_for_trace),
            via_oracle(check_collision_for_via),
        ensures
            r == path_clear(
                check_collision_for_trace,
                check_collision_for_via,
                self.solution_trace@,
                self.num_layers,
            ),
    {
        check_path(
            &self.solution_trace,
            self.num_layers,
            check_collision_for_trace,
            check_collision_for_via,
        )
    }
}

} // verus!
