//! The nodes that a search has reached, each linked to the node it was
//! reached from, and the path that leads to a node.

use vstd::prelude::*;
use crate::astar::heads;
use crate::direction::{AStarNodeDirection, Direction};
use crate::fixed_point::FixedPoint;
use crate::grid::in_range;
use crate::post_process::{step_aligned, step_empty, valid_path};
use crate::trace_path::{
    diagonal_of, segments_of, straight_of, vias_of, TraceAnchor, TraceAnchors, TracePath,
};
use crate::vec2::{is_odd, FixedVec2};

verus! {

/// What tells two search nodes apart: where they are and on which layer.
#[derive(Debug, Clone, Copy, PartialEq, Eq, Structural, Hash, PartialOrd, Ord)]
pub struct AstarNodeKey {
    pub position: FixedVec2,
    pub layer: usize,
}

/// A node of the search.
#[derive(Debug, Clone, Copy)]
pub struct AstarNode {
    pub position: FixedVec2,
    pub layer: usize,
    /// How the node was reached from the node before it.
    pub direction: AStarNodeDirection,
    /// Cost of the way from the start, changes of layer included.
    pub actual_cost: u64,
    /// Cost of the way from the start, changes of layer left out.
    pub actual_length: u64,
    /// Octile cost of the way left to the goal.
    pub estimated_cost: u64,
    /// Sum of the actual and the estimated cost.
    pub total_cost: u64,
    /// Index of the node before this one; `None` for a start node.
    pub prev_node: Option<usize>,
}

/// Whether node `k` is linked to an earlier node in the way its
/// direction says: a start node to none, a planar move to a node on the
/// same layer from which it lies in its direction, a change of layer to
/// a node at the same position on the layer it came from.
pub open spec fn linked(nodes: Seq<AstarNode>, k: int) -> bool {
    match nodes[k].direction {
        AStarNodeDirection::Unset => nodes[k].prev_node.is_none(),
        AStarNodeDirection::Planar(d) => match nodes[k].prev_node {
            Some(j) => j < k && nodes[j as int].layer == nodes[k].layer && heads(
                nodes[j as int].position,
                nodes[k].position,
                d,
            ),
            None => false,
        },
        AStarNodeDirection::Vertical { from_layer } => match nodes[k].prev_node {
            Some(j) => j < k && nodes[j as int].layer == from_layer && nodes[k].layer
                != from_layer && nodes[j as int].position == nodes[k].position,
            None => false,
        },
    }
}

/// Whether every node is linked, lies within the coordinate limit and
/// has an even coordinate sum.
pub open spec fn tree_ok(nodes: Seq<AstarNode>) -> bool {
    forall|k: int|
        0 <= k < nodes.len() ==> #[trigger] linked(nodes, k) && in_range(nodes[k].position@)
            && !is_odd(nodes[k].position.x@ + nodes[k].position.y@)
}

/// The indices of the nodes on the way to node `k`, from its start node.
pub open spec fn chain(nodes: Seq<AstarNode>, k: int) -> Seq<int>
    decreases k,
{
    if k < 0 {
        Seq::empty()
    } else {
        match nodes[k].prev_node {
            Some(j) => if j < k {
                chain(nodes, j as int).push(k)
            } else {
                seq![k]
            },
            None => seq![k],
        }
    }
}

/// The anchors of the way through the nodes `c`: one for each run of
/// nodes at one position, from the layer of the first to the layer of
/// the last of them.
pub open spec fn path_anchors(nodes: Seq<AstarNode>, c: Seq<int>) -> Seq<TraceAnchor>
    decreases c.len(),
{
    if c.len() == 0 {
        Seq::empty()
    } else {
        let before = path_anchors(nodes, c.drop_last());
        let x = nodes[c.last()];
        if before.len() > 0 && before.last().position == x.position {
            before.drop_last().push(
                TraceAnchor {
                    position: x.position,
                    start_layer: before.last().start_layer,
                    end_layer: x.layer,
                },
            )
        } else {
            before.push(
                TraceAnchor { position: x.position, start_layer: x.layer, end_layer: x.layer },
            )
        }
    }
}

/// Whether no two consecutive anchors share their position.
pub open spec fn no_empty_step(a: Seq<TraceAnchor>) -> bool {
    forall|i: int| 0 <= i < a.len() - 1 ==> !#[trigger] step_empty(a, i)
}

/// The root of the way to node `k`.
pub open spec fn root_of(nodes: Seq<AstarNode>, k: int) -> int {
    chain(nodes, k)[0]
}

/// The way to a node of a sound tree is a valid path without empty
/// steps, from the position and layer of its start node to the position
/// and layer of the node.
pub proof fn lemma_way(nodes: Seq<AstarNode>, k: int)
    requires
        tree_ok(nodes),
        0 <= k < nodes.len(),
    ensures
        ({
            let c = chain(nodes, k);
            let a = path_anchors(nodes, c);
            &&& c.len() >= 1
            &&& c.last() == k
            &&& 0 <= c[0] < nodes.len()
            &&& nodes[c[0]].prev_node.is_none()
            &&& a.len() >= 1
            &&& a.first().position == nodes[c[0]].position
            &&& a.first().start_layer == nodes[c[0]].layer
            &&& a.last().position == nodes[k].position
            &&& a.last().end_layer == nodes[k].layer
            &&& valid_path(a)
            &&& no_empty_step(a)
        }),
    decreases k,
{
    let c = chain(nodes, k);
    let a = path_anchors(nodes, c);
    assert(linked(nodes, k));
    assert(in_range(nodes[k].position@));
    match nodes[k].prev_node {
        Some(j) => {
            let j = j as int;
            lemma_way(nodes, j);
            let cj = chain(nodes, j);
            let b = path_anchors(nodes, cj);
            assert(c == cj.push(k));
            assert(c.drop_last() =~= cj);
            assert(c.last() == k);
            assert(c[0] == cj[0]);
            let x = nodes[k];
            if b.last().position == x.position {
                let merged = TraceAnchor {
                    position: x.position,
                    start_layer: b.last().start_layer,
                    end_layer: x.layer,
                };
                assert(a == b.drop_last().push(merged));
                assert forall|i: int| 0 <= i < a.len() - 1 implies #[trigger] step_aligned(
                    a,
                    i,
                ) by {
                    assert(step_aligned(b, i));
                }
                assert forall|i: int| 0 <= i < a.len() - 1 implies !#[trigger] step_empty(
                    a,
                    i,
                ) by {
                    assert(!step_empty(b, i));
                }
                assert forall|i: int| 0 <= i < a.len() - 1 implies (#[trigger] a[i]).end_layer
                    == a[i + 1].start_layer by {
                    assert(b[i].end_layer == b[i + 1].start_layer);
                }
                assert forall|i: int| 0 <= i < a.len() implies in_range(
                    (#[trigger] a[i]).position@,
                ) by {
                    assert(in_range(b[i].position@));
                }
            } else {
                let fresh = TraceAnchor {
                    position: x.position,
                    start_layer: x.layer,
                    end_layer: x.layer,
                };
                assert(a == b.push(fresh));
                assert forall|i: int| 0 <= i < a.len() - 1 implies #[trigger] step_aligned(
                    a,
                    i,
                ) by {
                    if i < b.len() - 1 {
                        assert(step_aligned(b, i));
                    }
                }
                assert forall|i: int| 0 <= i < a.len() - 1 implies !#[trigger] step_empty(
                    a,
                    i,
                ) by {
                    if i < b.len() - 1 {
                        assert(!step_empty(b, i));
                    }
                }
                assert forall|i: int| 0 <= i < a.len() - 1 implies (#[trigger] a[i]).end_layer
                    == a[i + 1].start_layer by {
                    if i < b.len() - 1 {
                        assert(b[i].end_layer == b[i + 1].start_layer);
                    }
                }
                assert forall|i: int| 0 <= i < a.len() implies in_range(
                    (#[trigger] a[i]).position@,
                ) by {
                    if i < b.len() {
                        assert(in_range(b[i].position@));
                    }
                }
            }
        },
        None => {
            assert(c == seq![k]);
            assert(c.drop_last() =~= Seq::<int>::empty());
            assert(path_anchors(nodes, Seq::<int>::empty()) =~= Seq::<TraceAnchor>::empty());
            let x = nodes[k];
            assert(a == Seq::<TraceAnchor>::empty().push(
                TraceAnchor { position: x.position, start_layer: x.layer, end_layer: x.layer },
            ));
        },
    }
}

impl AstarNode {
    /// The key under which the node counts as visited.
    pub fn key(&self) -> (r: AstarNodeKey)
        ensures
            r.position == self.position,
            r.layer == self.layer,
    {
        AstarNodeKey { position: self.position, layer: self.layer }
    }

    /// Whether node `k` is linked to an earlier node in the way its
    /// direction says.
    pub fn is_direction_and_displacement_invariant(nodes: &Vec<AstarNode>, k: usize) -> (r: bool)
        requires
            k < nodes@.len(),
        ensures
            r == (linked(nodes@, k as int) && match nodes@[k as int].prev_node {
                Some(j) => j < k,
                None => true,
            }),
    {
        let node = nodes[k];
        match node.direction {
            AStarNodeDirection::Unset => node.prev_node.is_none(),
            AStarNodeDirection::Planar(d) => match node.prev_node {
                Some(j) => {
                    if j >= k {
                        return false;
                    }
                    let before = nodes[j];
                    match Direction::from_points(before.position, node.position) {
                        Ok(Some(found)) => found == d && before.layer == node.layer,
                        _ => false,
                    }
                },
                None => false,
            },
            AStarNodeDirection::Vertical { from_layer } => match node.prev_node {
                Some(j) => {
                    if j >= k {
                        return false;
                    }
                    let before = nodes[j];
                    before.layer == from_layer && node.layer != from_layer && before.position
                        == node.position
                },
                None => false,
            },
        }
    }

    /// The path that leads to node `last`: the anchors of the way from
    /// its start node, with the segments, vias and length that follow
    /// from them.
    pub fn to_trace_path(
        nodes: &Vec<AstarNode>,
        last: usize,
        width: FixedPoint,
        clearance: FixedPoint,
        via_diameter: FixedPoint,
    ) -> (r: TracePath)
        requires
            tree_ok(nodes@),
            last < nodes@.len(),
        ensures
            r.anchors@ == path_anchors(nodes@, chain(nodes@, last as int)),
            r.segments@ == segments_of(r.anchors@, width, clearance),
            r.vias@ == vias_of(r.anchors@, via_diameter, clearance),
            r.total_length.straight == straight_of(r.anchors@, (r.anchors@.len() - 1) as nat),
            r.total_length.diagonal == diagonal_of(r.anchors@, (r.anchors@.len() - 1) as nat),
            valid_path(r.anchors@),
            no_empty_step(r.anchors@),
            r.anchors@.len() >= 1,
            r.anchors@.first().position == nodes@[root_of(nodes@, last as int)].position,
            r.anchors@.first().start_layer == nodes@[root_of(nodes@, last as int)].layer,
            r.anchors@.last().position == nodes@[last as int].position,
            r.anchors@.last().end_layer == nodes@[last as int].layer,
    {
        let back = way_back(nodes, last);
        let anchors = anchors_along(nodes, &back, Ghost(chain(nodes@, last as int)));
        proof {
            lemma_way(nodes@, last as int);
        }
        TracePath::from_anchors(TraceAnchors(anchors), width, clearance, via_diameter)
    }
}

/// The indices on the way to `last`, from `last` back to its start node.
fn way_back(nodes: &Vec<AstarNode>, last: usize) -> (r: Vec<usize>)
    requires
        tree_ok(nodes@),
        last < nodes@.len(),
    ensures
        r@.len() == chain(nodes@, last as int).len(),
        forall|t: int|
            0 <= t < r@.len() ==> #[trigger] r@[t] == chain(nodes@, last as int)[r@.len() - 1 - t]
                && r@[t] < nodes@.len(),
{
    let mut back: Vec<usize> = Vec::new();
    let mut cur: usize = last;
    let mut done = false;
    let ghost full = chain(nodes@, last as int);
    while !done
        invariant
            tree_ok(nodes@),
            cur < nodes@.len(),
            full == chain(nodes@, last as int),
            !done ==> full.len() == chain(nodes@, cur as int).len() + back@.len(),
            !done ==> forall|t: int|
                0 <= t < chain(nodes@, cur as int).len() ==> #[trigger] full[t] == chain(
                    nodes@,
                    cur as int,
                )[t],
            done ==> full.len() == back@.len(),
            forall|t: int|
                0 <= t < back@.len() ==> #[trigger] back@[t] == full[full.len() - 1 - t]
                    && back@[t] < nodes@.len(),
        decreases cur, !done as int,
    {
        proof {
            assert(linked(nodes@, cur as int));
            lemma_way(nodes@, cur as int);
        }
        back.push(cur);
        match nodes[cur].prev_node {
            Some(j) => {
                proof {
                    assert(chain(nodes@, cur as int) == chain(nodes@, j as int).push(cur as int));
                }
                cur = j;
            },
            None => {
                proof {
                    assert(chain(nodes@, cur as int) == seq![cur as int]);
                }
                done = true;
            },
        }
    }
    back
}

/// The anchors of the way whose indices `back` lists from its end.
fn anchors_along(nodes: &Vec<AstarNode>, back: &Vec<usize>, Ghost(c): Ghost<Seq<int>>) -> (r: Vec<
    TraceAnchor,
>)
    requires
        back@.len() == c.len(),
        forall|t: int|
            0 <= t < back@.len() ==> #[trigger] back@[t] == c[back@.len() - 1 - t] && back@[t]
                < nodes@.len(),
    ensures
        r@ == path_anchors(nodes@, c),
{
    let n = back.len();
    let mut anchors: Vec<TraceAnchor> = Vec::new();
    let mut m: usize = 0;
    while m < n
        invariant
            n == back@.len(),
            n == c.len(),
            m <= n,
            forall|t: int|
                0 <= t < back@.len() ==> #[trigger] back@[t] == c[back@.len() - 1 - t] && back@[t]
                    < nodes@.len(),
            anchors@ == path_anchors(nodes@, c.take(m as int)),
        decreases n - m,
    {
        let idx = back[n - 1 - m];
        let node = nodes[idx];
        proof {
            assert(c.take(m + 1).drop_last() =~= c.take(m as int));
            assert(c.take(m + 1).last() == c[m as int]);
            assert(idx == c[m as int]);
        }
        let count = anchors.len();
        if count > 0 && anchors[count - 1].position == node.position {
            let start_layer = anchors[count - 1].start_layer;
            anchors.pop();
            anchors.push(
                TraceAnchor { position: node.position, start_layer, end_layer: node.layer },
            );
        } else {
            anchors.push(
                TraceAnchor {
                    position: node.position,
                    start_layer: node.layer,
                    end_layer: node.layer,
                },
            );
        }
        m = m + 1;
    }
    proof {
        assert(c.take(n as int) =~= c);
    }
    anchors
}


/// Every node of a sound tree has an even coordinate sum: its
/// coordinates are both even or both odd.
pub proof fn lemma_node_parity(nodes: Seq<AstarNode>, k: int)
    requires
        tree_ok(nodes),
        0 <= k < nodes.len(),
    ensures
        !is_odd(nodes[k].position.x@ + nodes[k].position.y@),
        is_odd(nodes[k].position.x@) == is_odd(nodes[k].position.y@),
{
    assert(linked(nodes, k));
}

} // verus!
