//! The search itself: which nodes follow a node, and the loop that takes
//! the cheapest node until it reaches the goal.

use vstd::prelude::*;
use crate::astar::{
    heads, octile_distance_fixed, saturating_cost, AStarModel, AStarSettings, STRAIGHT_COST,
};
use crate::direction::{aligned, direction_of, AStarNodeDirection, Direction};
use crate::fixed_point::FixedPoint;
use crate::grid::{
    directions_to_grid_points, in_range, is_grid_move, is_grid_point, to_nearest_one_step_point,
    valid_stride, within_limit,
};
use crate::astar_check_struct::path_clear;
use crate::clear_tree::{
    clear_under, lemma_expand_keeps_clear, lemma_started_clear, lemma_way_is_clear, tree_clear,
};
use crate::collision_free::lemma_path_is_clear;
use crate::oracle::{ask, ask_via, blocked, geometric, trace_oracle, via_blocked, via_oracle};
use crate::post_process::{optimize_path, step_empty, valid_path};
use crate::search_tree::{
    chain, lemma_way, linked, no_empty_step, tree_ok, AstarNode, AstarNodeKey,
};
use crate::trace_path::{
    diagonal_of, layers_linked, segments_of, straight_of, vias_of, TraceAnchor, TracePath,
};
use crate::vec2::{is_odd, FixedVec2};

verus! {

/// A path found by the search.
#[derive(Debug, Clone)]
pub struct AStarResult {
    pub trace_path: TracePath,
}

/// Why a search found no path.
#[derive(Debug, Clone, Copy, PartialEq, Eq, Structural)]
pub enum AStarError {
    /// The caller asked the search to stop.
    Cancelled,
    /// More nodes were expanded than the settings allow.
    BudgetExceeded,
    /// No node is left to expand.
    NoPath,
}

/// A node waiting to be expanded, with the cost that orders the wait.
#[derive(Debug, Clone, Copy, PartialEq, Eq, Structural)]
pub struct FrontierItem {
    pub total_cost: u64,
    pub node: usize,
}

/// What a search has built so far.
pub struct Search {
    pub nodes: Vec<AstarNode>,
    pub frontier: Vec<FrontierItem>,
    pub visited: Vec<AstarNodeKey>,
}

/// Whether `idx` is the place of the first cheapest item.
pub open spec fn first_cheapest(frontier: Seq<FrontierItem>, idx: int) -> bool {
    &&& 0 <= idx < frontier.len()
    &&& forall|j: int| 0 <= j < frontier.len() ==> frontier[idx].total_cost <= (#[trigger] frontier[j]).total_cost
    &&& forall|j: int| 0 <= j < idx ==> frontier[idx].total_cost < (#[trigger] frontier[j]).total_cost
}

/// The place of the first cheapest item among the first `k`.
pub open spec fn best_waiting(frontier: Seq<FrontierItem>, k: nat) -> int
    decreases k,
{
    if k <= 1 {
        0
    } else {
        let before = best_waiting(frontier, (k - 1) as nat);
        if frontier[k - 1].total_cost < frontier[before].total_cost {
            k - 1
        } else {
            before
        }
    }
}

/// The best waiting item is the first cheapest.
pub proof fn lemma_best_waiting(frontier: Seq<FrontierItem>, k: nat)
    requires
        1 <= k <= frontier.len(),
    ensures
        0 <= best_waiting(frontier, k) < k,
        forall|j: int|
            0 <= j < k ==> frontier[best_waiting(frontier, k)].total_cost <= (#[trigger] frontier[j]).total_cost,
        forall|j: int|
            0 <= j < best_waiting(frontier, k) ==> frontier[best_waiting(frontier, k)].total_cost
                < (#[trigger] frontier[j]).total_cost,
    decreases k,
{
    if k > 1 {
        lemma_best_waiting(frontier, (k - 1) as nat);
    }
}

/// Takes the cheapest item out of the frontier; of several, the one that
/// has waited longest.
pub fn pop_min(frontier: &mut Vec<FrontierItem>) -> (r: FrontierItem)
    requires
        old(frontier)@.len() > 0,
    ensures
        first_cheapest(old(frontier)@, best_waiting(old(frontier)@, old(frontier)@.len())),
        r == old(frontier)@[best_waiting(old(frontier)@, old(frontier)@.len())],
        final(frontier)@ == old(frontier)@.remove(
            best_waiting(old(frontier)@, old(frontier)@.len()),
        ),
{
    let n = frontier.len();
    let mut best: usize = 0;
    let mut k: usize = 1;
    while k < n
        invariant
            n == frontier@.len(),
            frontier@ == old(frontier)@,
            1 <= k <= n,
            best < k,
            best == best_waiting(frontier@, k as nat),
            forall|j: int| 0 <= j < k ==> frontier@[best as int].total_cost <= (#[trigger] frontier@[j]).total_cost,
            forall|j: int| 0 <= j < best ==> frontier@[best as int].total_cost < (#[trigger] frontier@[j]).total_cost,
        decreases n - k,
    {
        if frontier[k].total_cost < frontier[best].total_cost {
            best = k;
        }
        k = k + 1;
    }
    assert(first_cheapest(frontier@, best as int));
    frontier.remove(best)
}

/// Whether `key` is among the visited keys.
pub fn is_visited(visited: &Vec<AstarNodeKey>, key: AstarNodeKey) -> (r: bool)
    ensures
        r == visited@.contains(key),
{
    let mut k: usize = 0;
    while k < visited.len()
        invariant
            k <= visited@.len(),
            forall|j: int| 0 <= j < k ==> visited@[j] != key,
        decreases visited@.len() - k,
    {
        if visited[k] == key {
            return true;
        }
        k = k + 1;
    }
    false
}

/// What a search has built so far, as plain sequences.
pub struct SearchView {
    pub nodes: Seq<AstarNode>,
    pub frontier: Seq<FrontierItem>,
    pub visited: Seq<AstarNodeKey>,
}

impl View for Search {
    type V = SearchView;

    open spec fn view(&self) -> SearchView {
        SearchView { nodes: self.nodes@, frontier: self.frontier@, visited: self.visited@ }
    }
}

/// The sum of two costs, or the largest cost where it does not fit.
pub open spec fn cost_sum(a: u64, b: u64) -> u64 {
    if a + b > u64::MAX {
        u64::MAX
    } else {
        (a + b) as u64
    }
}

/// The octile cost of the way from `a` to `b`.
pub open spec fn way_cost(a: FixedVec2, b: FixedVec2) -> u64 {
    crate::astar::octile_cost(b.x@ - a.x@, b.y@ - a.y@) as u64
}

/// The search with one more node, which waits to be expanded.
pub open spec fn waits(v: SearchView, node: AstarNode) -> SearchView {
    SearchView {
        nodes: v.nodes.push(node),
        frontier: v.frontier.push(
            FrontierItem { total_cost: node.total_cost, node: v.nodes.len() as usize },
        ),
        visited: v.visited,
    }
}

/// The node reached from node `parent` by a move in direction `d` to
/// `to`: the way there costs its octile cost more, the way left is
/// estimated by its octile cost.
pub open spec fn planar_node(
    model: &AStarModel,
    from: AstarNode,
    parent: usize,
    d: Direction,
    to: FixedVec2,
) -> AstarNode {
    let actual_cost = cost_sum(from.actual_cost, way_cost(from.position, to));
    AstarNode {
        position: to,
        layer: from.layer,
        direction: AStarNodeDirection::Planar(d),
        actual_cost,
        actual_length: cost_sum(from.actual_length, way_cost(from.position, to)),
        estimated_cost: way_cost(to, model.end),
        total_cost: cost_sum(actual_cost, way_cost(to, model.end)),
        prev_node: Some(parent),
    }
}

/// The node reached from node `parent` by a change to `to_layer`: the
/// way there costs one via more and is no longer.
pub open spec fn vertical_node(
    model: &AStarModel,
    from: AstarNode,
    parent: usize,
    to_layer: usize,
    via_cost: u64,
) -> AstarNode {
    let actual_cost = cost_sum(from.actual_cost, via_cost);
    AstarNode {
        position: from.position,
        layer: to_layer,
        direction: AStarNodeDirection::Vertical { from_layer: from.layer },
        actual_cost,
        actual_length: from.actual_length,
        estimated_cost: way_cost(from.position, model.end),
        total_cost: cost_sum(actual_cost, way_cost(from.position, model.end)),
        prev_node: Some(parent),
    }
}

/// The search after a move from node `parent` in direction `d` to `to`
/// was offered: the node reached waits, unless the move is not one in
/// that direction, leaves the coordinate limit or the even-sum lattice,
/// or ends on a visited key.
pub open spec fn with_planar(
    v: SearchView,
    model: &AStarModel,
    parent: usize,
    d: Direction,
    to: FixedVec2,
) -> SearchView {
    let from = v.nodes[parent as int];
    if heads(from.position, to, d) && in_range(to@) && !is_odd(to.x@ + to.y@)
        && !v.visited.contains(AstarNodeKey { position: to, layer: from.layer }) {
        waits(v, planar_node(model, from, parent, d, to))
    } else {
        v
    }
}

/// The search after a change from node `parent` to `to_layer` was
/// offered: the node reached waits, unless that is the layer of the node
/// or the key is visited.
pub open spec fn with_vertical(
    v: SearchView,
    model: &AStarModel,
    parent: usize,
    to_layer: usize,
    via_cost: u64,
) -> SearchView {
    let from = v.nodes[parent as int];
    if to_layer != from.layer && !v.visited.contains(
        AstarNodeKey { position: from.position, layer: to_layer },
    ) {
        waits(v, vertical_node(model, from, parent, to_layer, via_cost))
    } else {
        v
    }
}

impl Search {
    /// Whether the tree is sound, every waiting item names a node of it
    /// and every start node stands at the start of the model on one of
    /// its start layers.
    pub open spec fn sound(&self, model: &AStarModel) -> bool {
        &&& tree_ok(self.nodes@)
        &&& forall|t: int|
            0 <= t < self.frontier@.len() ==> (#[trigger] self.frontier@[t]).node < self.nodes@.len()
        &&& forall|k: int|
            0 <= k < self.nodes@.len() && (#[trigger] self.nodes@[k]).prev_node.is_none()
                ==> self.nodes@[k].position == model.start && model.start_layers.has(
                self.nodes@[k].layer as int,
                model.num_layers as int,
            )
    }

    /// Whether `self` is `before` with nodes and waiting items added and
    /// nothing else changed.
    pub open spec fn extends(&self, before: &Search) -> bool {
        &&& self.visited@ == before.visited@
        &&& self.nodes@.len() >= before.nodes@.len()
        &&& forall|k: int| 0 <= k < before.nodes@.len() ==> self.nodes@[k] == before.nodes@[k]
        &&& self.frontier@.len() >= before.frontier@.len()
    }
}

/// The start node of the model on `layer`.
pub open spec fn start_node(model: &AStarModel, layer: usize) -> AstarNode {
    AstarNode {
        position: model.start,
        layer,
        direction: AStarNodeDirection::Unset,
        actual_cost: 0,
        actual_length: 0,
        estimated_cost: crate::astar::octile_cost(
            model.end.x@ - model.start.x@,
            model.end.y@ - model.start.y@,
        ) as u64,
        total_cost: crate::astar::octile_cost(
            model.end.x@ - model.start.x@,
            model.end.y@ - model.start.y@,
        ) as u64,
        prev_node: None,
    }
}

/// The anchor of a path that starts and ends at one node.
pub open spec fn lone_anchor(position: FixedVec2, layer: usize) -> TraceAnchor {
    TraceAnchor { position, start_layer: layer, end_layer: layer }
}

/// Whether the start is the goal and the first start layer is a layer on
/// which the goal can be reached.
pub open spec fn already_there(model: &AStarModel) -> bool {
    model.start == model.end && model.end_layers.has(
        model.start_layers.first_layer(model.num_layers as int),
        model.num_layers as int,
    )
}

/// Adds a start node on `layer`.
fn push_start(s: &mut Search, model: &AStarModel, layer: usize)
    requires
        old(s).sound(model),
        model.valid(),
        model.start_layers.has(layer as int, model.num_layers as int),
    ensures
        final(s).sound(model),
        final(s).extends(old(s)),
        final(s)@ == waits(old(s)@, start_node(model, layer)),
{
    let estimated = octile_distance_fixed(model.start, model.end);
    let node = AstarNode {
        position: model.start,
        layer,
        direction: AStarNodeDirection::Unset,
        actual_cost: 0,
        actual_length: 0,
        estimated_cost: estimated,
        total_cost: estimated,
        prev_node: None,
    };
    let ghost before = s.nodes@;
    let index = s.nodes.len();
    s.nodes.push(node);
    s.frontier.push(FrontierItem { total_cost: estimated, node: index });
    proof {
        assert forall|k: int| 0 <= k < s.nodes@.len() implies #[trigger] linked(s.nodes@, k)
            && in_range(s.nodes@[k].position@) && !is_odd(
            s.nodes@[k].position.x@ + s.nodes@[k].position.y@,
        ) by {
            if k < before.len() {
                assert(linked(before, k));
            }
        }
    }
}

/// Adds the node reached from `parent` by a move in direction `d` to
/// `to`, unless the move is not one in that direction, leaves the
/// coordinate limit or the even-sum lattice, or ends on a visited key.
fn push_planar(s: &mut Search, model: &AStarModel, parent: usize, d: Direction, to: FixedVec2)
    requires
        old(s).sound(model),
        parent < old(s).nodes@.len(),
    ensures
        final(s).sound(model),
        final(s).extends(old(s)),
        final(s)@ == with_planar(old(s)@, model, parent, d, to),
{
    let from = s.nodes[parent];
    let ok = match Direction::from_points(from.position, to) {
        Ok(Some(found)) => found == d,
        _ => false,
    };
    if !ok || !within(to) || !to.is_sum_even() {
        return ;
    }
    if is_visited(&s.visited, AstarNodeKey { position: to, layer: from.layer }) {
        return ;
    }
    let length = octile_distance_fixed(from.position, to);
    let actual_cost = saturating_cost(from.actual_cost, length);
    let actual_length = saturating_cost(from.actual_length, length);
    let estimated = octile_distance_fixed(to, model.end);
    let total = saturating_cost(actual_cost, estimated);
    let node = AstarNode {
        position: to,
        layer: from.layer,
        direction: AStarNodeDirection::Planar(d),
        actual_cost,
        actual_length,
        estimated_cost: estimated,
        total_cost: total,
        prev_node: Some(parent),
    };
    let ghost before = s.nodes@;
    let index = s.nodes.len();
    s.nodes.push(node);
    s.frontier.push(FrontierItem { total_cost: total, node: index });
    proof {
        assert forall|k: int| 0 <= k < s.nodes@.len() implies #[trigger] linked(s.nodes@, k)
            && in_range(s.nodes@[k].position@) && !is_odd(
            s.nodes@[k].position.x@ + s.nodes@[k].position.y@,
        ) by {
            if k < before.len() {
                assert(linked(before, k));
            }
        }
    }
}

/// Adds the node reached from `parent` by a change to `to_layer`, unless
/// that is the layer of `parent` or the key is visited.
fn push_vertical(s: &mut Search, model: &AStarModel, parent: usize, to_layer: usize, via_cost: u64)
    requires
        old(s).sound(model),
        parent < old(s).nodes@.len(),
    ensures
        final(s).sound(model),
        final(s).extends(old(s)),
        final(s)@ == with_vertical(old(s)@, model, parent, to_layer, via_cost),
{
    let from = s.nodes[parent];
    if to_layer == from.layer {
        return ;
    }
    if is_visited(&s.visited, AstarNodeKey { position: from.position, layer: to_layer }) {
        return ;
    }
    proof {
        assert(linked(s.nodes@, parent as int));
    }
    let actual_cost = saturating_cost(from.actual_cost, via_cost);
    let estimated = octile_distance_fixed(from.position, model.end);
    let total = saturating_cost(actual_cost, estimated);
    let node = AstarNode {
        position: from.position,
        layer: to_layer,
        direction: AStarNodeDirection::Vertical { from_layer: from.layer },
        actual_cost,
        actual_length: from.actual_length,
        estimated_cost: estimated,
        total_cost: total,
        prev_node: Some(parent),
    };
    let ghost before = s.nodes@;
    let index = s.nodes.len();
    s.nodes.push(node);
    s.frontier.push(FrontierItem { total_cost: total, node: index });
    proof {
        assert forall|k: int| 0 <= k < s.nodes@.len() implies #[trigger] linked(s.nodes@, k)
            && in_range(s.nodes@[k].position@) && !is_odd(
            s.nodes@[k].position.x@ + s.nodes@[k].position.y@,
        ) by {
            if k < before.len() {
                assert(linked(before, k));
            }
        }
    }
}

fn within(p: FixedVec2) -> (r: bool)
    ensures
        r == in_range(p@),
{
    within_limit(p.x.bits as i64, p.y.bits as i64)
}


/// The point with the given tick counts.
pub open spec fn point_of(p: (int, int)) -> FixedVec2 {
    FixedVec2 { x: FixedPoint { bits: p.0 as i32 }, y: FixedPoint { bits: p.1 as i32 } }
}

/// Whether both coordinates of a point are odd.
pub open spec fn odd_odd(p: FixedVec2) -> bool {
    is_odd(p.x@) && is_odd(p.y@)
}

/// Whether a direction is diagonal.
pub open spec fn diagonal(d: Direction) -> bool {
    d.unit_x() != 0 && d.unit_y() != 0
}

/// The search after rule one: where the goal lies in one of the eight
/// directions from node `cur`, on a layer on which it can be reached,
/// and the way there is clear, the goal is offered.
pub open spec fn after_end<F: Fn(FixedVec2, FixedVec2, usize) -> bool>(
    v: SearchView,
    model: &AStarModel,
    f: &F,
    cur: usize,
) -> SearchView {
    let node = v.nodes[cur as int];
    match model.end_alignment(node.position, node.layer) {
        Some(d) => if !blocked(f, node.position, model.end, node.layer) {
            with_planar(v, model, cur, d, model.end)
        } else {
            v
        },
        None => v,
    }
}

/// The search after the layers below `lower` were offered, one by one
/// downwards, up to the first on which a via does not fit.
pub open spec fn vias_down<G: Fn(FixedVec2, usize) -> bool>(
    v: SearchView,
    model: &AStarModel,
    g: &G,
    cur: usize,
    position: FixedVec2,
    cost: u64,
    lower: nat,
) -> SearchView
    decreases lower,
{
    if lower > 0 && !via_blocked(g, position, (lower - 1) as usize) {
        vias_down(
            with_vertical(v, model, cur, (lower - 1) as usize, cost),
            model,
            g,
            cur,
            position,
            cost,
            (lower - 1) as nat,
        )
    } else {
        v
    }
}

/// The search after the layers from `upper` on were offered, one by one
/// upwards, up to the first on which a via does not fit.
pub open spec fn vias_up<G: Fn(FixedVec2, usize) -> bool>(
    v: SearchView,
    model: &AStarModel,
    g: &G,
    cur: usize,
    position: FixedVec2,
    cost: u64,
    upper: nat,
) -> SearchView
    decreases model.num_layers - upper,
{
    if upper < model.num_layers && !via_blocked(g, position, upper as usize) {
        vias_up(
            with_vertical(v, model, cur, upper as usize, cost),
            model,
            g,
            cur,
            position,
            cost,
            upper + 1,
        )
    } else {
        v
    }
}

/// What one change of layer costs: the configured length in ticks times
/// the cost of a straight tick; nothing for a negative length.
pub open spec fn via_cost_of(via_cost: FixedPoint) -> u64 {
    if via_cost@ < 0 {
        0
    } else {
        (via_cost@ * STRAIGHT_COST) as u64
    }
}

/// The search after rule two: at a grid point where a via fits, the
/// layers below and then the layers above node `cur` are offered, in
/// each direction up to the first layer on which the via does not fit.
pub open spec fn after_vias<G: Fn(FixedVec2, usize) -> bool>(
    v: SearchView,
    model: &AStarModel,
    g: &G,
    cur: usize,
    settings: &AStarSettings,
) -> SearchView {
    let node = v.nodes[cur as int];
    let cost = via_cost_of(settings.via_cost);
    if crate::grid::on_grid(node.position@, settings.astar_stride@) && node.layer
        < model.num_layers && !via_blocked(g, node.position, node.layer) {
        vias_up(
            vias_down(v, model, g, cur, node.position, cost, node.layer as nat),
            model,
            g,
            cur,
            node.position,
            cost,
            (node.layer + 1) as nat,
        )
    } else {
        v
    }
}

/// The nearest point at which the move from `a` to `b` on `layer` meets
/// a line through the goal, on a layer on which the goal can be reached.
pub open spec fn crossing_on(model: &AStarModel, a: FixedVec2, b: FixedVec2, layer: usize) -> Option<
    FixedVec2,
> {
    if model.end_layers.has(layer as int, model.num_layers as int) {
        match crate::astar::nearest_crossing(a, b, model.end, 6) {
            Some(q) => Some(point_of(q)),
            None => None,
        }
    } else {
        None
    }
}

/// The search after a move from node `cur` in direction `d` towards
/// `dest`, and whether the move led anywhere. A move beyond the
/// coordinate limit, or along an axis from a point with two odd
/// coordinates, leads nowhere. Else the point where the move stops is
/// offered, and, unless the goal lies in one of the eight directions from
/// the node, so is the nearest point at which the move meets a line
/// through the goal.
pub open spec fn after_move<F: Fn(FixedVec2, FixedVec2, usize) -> bool>(
    v: SearchView,
    model: &AStarModel,
    f: &F,
    cur: usize,
    d: Direction,
    dest: FixedVec2,
    goal_aligned: bool,
) -> (SearchView, bool) {
    let node = v.nodes[cur as int];
    if !in_range(dest@) || (odd_odd(node.position) && !diagonal(d)) {
        (v, false)
    } else {
        match crate::astar::clamped(f, node.position, dest, node.layer) {
            None => (v, false),
            Some(stop) => {
                let v1 = with_planar(v, model, cur, d, stop);
                if goal_aligned {
                    (v1, true)
                } else {
                    match crossing_on(model, node.position, stop, node.layer) {
                        Some(q) => (with_planar(v1, model, cur, d, q), true),
                        None => (v1, true),
                    }
                }
            },
        }
    }
}

/// The search after the first `k` of `moves` were made from node `cur`.
pub open spec fn moves_made<F: Fn(FixedVec2, FixedVec2, usize) -> bool>(
    v: SearchView,
    model: &AStarModel,
    f: &F,
    cur: usize,
    moves: Seq<(Direction, FixedVec2)>,
    goal_aligned: bool,
    k: nat,
) -> SearchView
    decreases k,
{
    if k == 0 {
        v
    } else {
        after_move(
            moves_made(v, model, f, cur, moves, goal_aligned, (k - 1) as nat),
            model,
            f,
            cur,
            moves[k - 1].0,
            moves[k - 1].1,
            goal_aligned,
        ).0
    }
}

/// The moves from `p` to the neighbouring grid points.
pub open spec fn grid_targets(p: FixedVec2, stride: int) -> Seq<(Direction, FixedVec2)> {
    Seq::new(
        crate::grid::grid_moves(p@, stride).len(),
        |i: int| (crate::grid::grid_moves(p@, stride)[i].0, point_of(crate::grid::grid_moves(p@, stride)[i].1)),
    )
}

/// The moves of one step from `p` along each of `directions`.
pub open spec fn step_targets(p: FixedVec2, directions: Seq<Direction>, stride: int) -> Seq<
    (Direction, FixedVec2),
> {
    Seq::new(
        directions.len(),
        |i: int| (directions[i], point_of(crate::grid::one_step(p@, directions[i], stride))),
    )
}

/// The search after rule three: the moves from node `cur` to the
/// neighbouring grid points.
pub open spec fn after_grid<F: Fn(FixedVec2, FixedVec2, usize) -> bool>(
    v: SearchView,
    model: &AStarModel,
    f: &F,
    cur: usize,
    settings: &AStarSettings,
    goal_aligned: bool,
) -> SearchView {
    let moves = grid_targets(v.nodes[cur as int].position, settings.astar_stride@);
    moves_made(v, model, f, cur, moves, goal_aligned, moves.len())
}

/// The search after rule four: one step from node `cur` along each
/// obstacle that it touches.
pub open spec fn after_radial<F: Fn(FixedVec2, FixedVec2, usize) -> bool>(
    v: SearchView,
    model: &AStarModel,
    f: &F,
    cur: usize,
    settings: &AStarSettings,
    goal_aligned: bool,
) -> SearchView {
    let node = v.nodes[cur as int];
    let moves = step_targets(
        node.position,
        crate::astar::radial_list(f, node.position, node.layer, 8),
        settings.astar_stride@,
    );
    moves_made(v, model, f, cur, moves, goal_aligned, moves.len())
}

/// Rule one: where the goal lies in one of the eight directions on a
/// layer on which it can be reached, and the way there is clear, the
/// goal follows. Returns whether the goal lies in such a direction.
fn expand_end<F: Fn(FixedVec2, FixedVec2, usize) -> bool>(
    s: &mut Search,
    model: &AStarModel,
    f: &F,
    cur: usize,
) -> (r: bool)
    requires
        old(s).sound(model),
        cur < old(s).nodes@.len(),
        trace_oracle(f),
    ensures
        final(s).sound(model),
        final(s).extends(old(s)),
        final(s)@ == after_end(old(s)@, model, f, cur),
        r == model.end_alignment(
            old(s).nodes@[cur as int].position,
            old(s).nodes@[cur as int].layer,
        ).is_some(),
{
    let node = s.nodes[cur];
    match model.is_aligned_with_end(node.position, node.layer) {
        Some(d) => {
            if !ask(f, node.position, model.end, node.layer) {
                push_planar(s, model, cur, d, model.end);
            }
            true
        },
        None => false,
    }
}

/// Rule two: at a grid point where a via fits, the layers above and
/// below follow, in each direction up to the first layer on which the
/// via does not fit.
fn expand_vias<G: Fn(FixedVec2, usize) -> bool>(
    s: &mut Search,
    model: &AStarModel,
    g: &G,
    cur: usize,
    settings: &AStarSettings,
)
    requires
        old(s).sound(model),
        cur < old(s).nodes@.len(),
        via_oracle(g),
        valid_stride(settings.astar_stride@),
    ensures
        final(s).sound(model),
        final(s).extends(old(s)),
        final(s)@ == after_vias(old(s)@, model, g, cur, settings),
{
    let node = s.nodes[cur];
    if !is_grid_point(&node.position, settings.astar_stride) {
        return ;
    }
    if node.layer >= model.num_layers || ask_via(g, node.position, node.layer) {
        return ;
    }
    let cost = via_cost_units(settings.via_cost);
    let mut lower = node.layer;
    while lower > 0 && !ask_via(g, node.position, lower - 1)
        invariant
            s.sound(model),
            s.extends(old(s)),
            cur < old(s).nodes@.len(),
            via_oracle(g),
            lower <= node.layer,
            vias_down(s@, model, g, cur, node.position, cost, lower as nat) == vias_down(
                old(s)@,
                model,
                g,
                cur,
                node.position,
                cost,
                node.layer as nat,
            ),
        decreases lower,
    {
        lower = lower - 1;
        push_vertical(s, model, cur, lower, cost);
    }
    let ghost below = s@;
    let mut upper = node.layer + 1;
    while upper < model.num_layers && !ask_via(g, node.position, upper)
        invariant
            s.sound(model),
            s.extends(old(s)),
            cur < old(s).nodes@.len(),
            via_oracle(g),
            node.layer < upper,
            vias_up(s@, model, g, cur, node.position, cost, upper as nat) == vias_up(
                below,
                model,
                g,
                cur,
                node.position,
                cost,
                (node.layer + 1) as nat,
            ),
        decreases model.num_layers - upper,
    {
        push_vertical(s, model, cur, upper, cost);
        upper = upper + 1;
    }
}

fn via_cost_units(via_cost: FixedPoint) -> (r: u64)
    ensures
        r == via_cost_of(via_cost),
{
    if via_cost.bits < 0 {
        0
    } else {
        via_cost.bits as u64 * STRAIGHT_COST
    }
}

/// A move from node `cur` towards `dest`: the point where it stops
/// follows, and, unless the goal lies in one of the eight directions
/// from the node, so does the nearest point at which the move meets a
/// line along which the goal can be reached. Returns whether the move
/// led anywhere.
#[verifier::rlimit(40)]
fn push_move<F: Fn(FixedVec2, FixedVec2, usize) -> bool>(
    s: &mut Search,
    model: &AStarModel,
    f: &F,
    cur: usize,
    d: Direction,
    dest: FixedVec2,
    goal_aligned: bool,
) -> (r: bool)
    requires
        old(s).sound(model),
        cur < old(s).nodes@.len(),
        model.valid(),
        trace_oracle(f),
        heads(old(s).nodes@[cur as int].position, dest, d),
    ensures
        final(s).sound(model),
        final(s).extends(old(s)),
        (final(s)@, r) == after_move(old(s)@, model, f, cur, d, dest, goal_aligned),
{
    let node = s.nodes[cur];
    proof {
        assert(linked(s.nodes@, cur as int));
    }
    if !within(dest) {
        return false;
    }
    if node.position.is_x_odd_y_odd() && !d.is_diagonal() {
        return false;
    }
    let stop = match model.clamp_by_collision(f, node.position, dest, node.layer) {
        Some(p) => p,
        None => {
            return false;
        },
    };
    push_planar(s, model, cur, d, stop);
    if !goal_aligned {
        match model.get_intersection_with_end_alignments(node.position, stop, node.layer) {
            Some(q) => {
                assert(q == point_of(q@));
                push_planar(s, model, cur, d, q);
            },
            None => {},
        }
    }
    true
}

/// Makes the moves listed from node `cur`, in order.
fn make_moves<F: Fn(FixedVec2, FixedVec2, usize) -> bool>(
    s: &mut Search,
    model: &AStarModel,
    f: &F,
    cur: usize,
    moves: &Vec<(Direction, FixedVec2)>,
    goal_aligned: bool,
)
    requires
        old(s).sound(model),
        cur < old(s).nodes@.len(),
        model.valid(),
        trace_oracle(f),
        forall|t: int|
            0 <= t < moves@.len() ==> heads(
                old(s).nodes@[cur as int].position,
                (#[trigger] moves@[t]).1,
                moves@[t].0,
            ),
    ensures
        final(s).sound(model),
        final(s).extends(old(s)),
        final(s)@ == moves_made(old(s)@, model, f, cur, moves@, goal_aligned, moves@.len()),
{
    let mut k: usize = 0;
    while k < moves.len()
        invariant
            s.sound(model),
            s.extends(old(s)),
            cur < old(s).nodes@.len(),
            model.valid(),
            trace_oracle(f),
            k <= moves@.len(),
            forall|t: int|
                0 <= t < moves@.len() ==> heads(
                    old(s).nodes@[cur as int].position,
                    (#[trigger] moves@[t]).1,
                    moves@[t].0,
                ),
            s@ == moves_made(old(s)@, model, f, cur, moves@, goal_aligned, k as nat),
        decreases moves@.len() - k,
    {
        let (d, dest) = moves[k];
        assert(heads(old(s).nodes@[cur as int].position, moves@[k as int].1, moves@[k as int].0));
        push_move(s, model, f, cur, d, dest, goal_aligned);
        k = k + 1;
    }
}

/// Rule three: the moves to the neighbouring grid points. Returns whether
/// the node lies on a grid line.
fn expand_grid<F: Fn(FixedVec2, FixedVec2, usize) -> bool>(
    s: &mut Search,
    model: &AStarModel,
    f: &F,
    cur: usize,
    settings: &AStarSettings,
    goal_aligned: bool,
) -> (r: bool)
    requires
        old(s).sound(model),
        cur < old(s).nodes@.len(),
        model.valid(),
        trace_oracle(f),
        valid_stride(settings.astar_stride@),
    ensures
        final(s).sound(model),
        final(s).extends(old(s)),
        final(s)@ == after_grid(old(s)@, model, f, cur, settings, goal_aligned),
        r == (grid_targets(old(s).nodes@[cur as int].position, settings.astar_stride@).len() > 0),
{
    let node = s.nodes[cur];
    proof {
        assert(linked(s.nodes@, cur as int));
    }
    let moves = directions_to_grid_points(node.position, settings.astar_stride);
    proof {
        let targets = grid_targets(node.position, settings.astar_stride@);
        let plain = crate::grid::grid_moves(node.position@, settings.astar_stride@);
        assert(crate::grid::moves_view(moves@).len() == plain.len());
        assert forall|t: int| 0 <= t < moves@.len() implies #[trigger] moves@[t] == targets[t]
            && heads(node.position, moves@[t].1, moves@[t].0) by {
            assert(is_grid_move(moves@[t], node.position, settings.astar_stride@));
            assert(crate::grid::moves_view(moves@)[t] == plain[t]);
            assert(moves@[t].1 == point_of(moves@[t].1@));
        }
        assert(moves@ =~= targets);
    }
    make_moves(s, model, f, cur, &moves, goal_aligned);
    moves.len() > 0
}

/// The point one step from `position` in each of `directions`.
fn steps_along(position: FixedVec2, directions: &Vec<Direction>, stride: FixedPoint) -> (r: Vec<
    (Direction, FixedVec2),
>)
    requires
        valid_stride(stride@),
        in_range(position@),
        !is_odd(position.x@ + position.y@),
    ensures
        r@ == step_targets(position, directions@, stride@),
        forall|t: int| 0 <= t < r@.len() ==> heads(position, (#[trigger] r@[t]).1, r@[t].0),
{
    let mut r: Vec<(Direction, FixedVec2)> = Vec::new();
    let mut k: usize = 0;
    while k < directions.len()
        invariant
            valid_stride(stride@),
            in_range(position@),
            !is_odd(position.x@ + position.y@),
            k <= directions@.len(),
            r@.len() == k,
            forall|t: int|
                0 <= t < k ==> #[trigger] r@[t] == step_targets(position, directions@, stride@)[t]
                    && heads(position, r@[t].1, r@[t].0),
        decreases directions@.len() - k,
    {
        let d = directions[k];
        let dest = to_nearest_one_step_point(&position, d, stride);
        assert(dest == point_of(dest@));
        r.push((d, dest));
        k = k + 1;
    }
    assert(r@ =~= step_targets(position, directions@, stride@));
    r
}

/// Rule four: one step along each obstacle that the node touches.
/// Returns whether the node touches an obstacle.
fn expand_radial<F: Fn(FixedVec2, FixedVec2, usize) -> bool>(
    s: &mut Search,
    model: &AStarModel,
    f: &F,
    cur: usize,
    settings: &AStarSettings,
    goal_aligned: bool,
) -> (r: bool)
    requires
        old(s).sound(model),
        cur < old(s).nodes@.len(),
        model.valid(),
        trace_oracle(f),
        valid_stride(settings.astar_stride@),
    ensures
        final(s).sound(model),
        final(s).extends(old(s)),
        final(s)@ == after_radial(old(s)@, model, f, cur, settings, goal_aligned),
        r == (crate::astar::radial_list(
            f,
            old(s).nodes@[cur as int].position,
            old(s).nodes@[cur as int].layer,
            8,
        ).len() > 0),
{
    let node = s.nodes[cur];
    proof {
        assert(linked(s.nodes@, cur as int));
    }
    let directions = model.radial_directions_wrt_obstacles(f, &node.position, node.layer);
    let moves = steps_along(node.position, &directions, settings.astar_stride);
    make_moves(s, model, f, cur, &moves, goal_aligned);
    directions.len() > 0
}

/// The search after one whole step from node `cur` in direction `d` was
/// tried, and whether the step was taken: it is taken when the way is
/// clear, within the coordinate limit and not along an axis from a point
/// with two odd coordinates.
pub open spec fn after_clear_step<F: Fn(FixedVec2, FixedVec2, usize) -> bool>(
    v: SearchView,
    model: &AStarModel,
    f: &F,
    cur: usize,
    stride: int,
    d: Direction,
) -> (SearchView, bool) {
    let node = v.nodes[cur as int];
    let dest = point_of(crate::grid::one_step(node.position@, d, stride));
    if (odd_odd(node.position) && !diagonal(d)) || !in_range(dest@) || blocked(
        f,
        node.position,
        dest,
        node.layer,
    ) {
        (v, false)
    } else {
        (with_planar(v, model, cur, d, dest), true)
    }
}

/// The search after one step from node `cur` in direction `d`, as far as
/// the way is clear, and whether the step led anywhere.
pub open spec fn after_step_to_obstacle<F: Fn(FixedVec2, FixedVec2, usize) -> bool>(
    v: SearchView,
    model: &AStarModel,
    f: &F,
    cur: usize,
    stride: int,
    d: Direction,
) -> (SearchView, bool) {
    let node = v.nodes[cur as int];
    after_move(v, model, f, cur, d, point_of(crate::grid::one_step(node.position@, d, stride)), true)
}

/// The search after the first whole step that is clear among the
/// directions from place `k` on, and whether there was one.
pub open spec fn first_clear_step<F: Fn(FixedVec2, FixedVec2, usize) -> bool>(
    v: SearchView,
    model: &AStarModel,
    f: &F,
    cur: usize,
    stride: int,
    k: nat,
) -> (SearchView, bool)
    decreases 8 - k,
{
    if k >= 8 {
        (v, false)
    } else {
        let tried = after_clear_step(v, model, f, cur, stride, crate::astar::direction_order()[k as int]);
        if tried.1 {
            tried
        } else {
            first_clear_step(v, model, f, cur, stride, k + 1)
        }
    }
}

/// The search after the first step that leads anywhere among the
/// directions from place `k` on, `own` and the way back left out.
pub open spec fn first_other_step<F: Fn(FixedVec2, FixedVec2, usize) -> bool>(
    v: SearchView,
    model: &AStarModel,
    f: &F,
    cur: usize,
    stride: int,
    own: Direction,
    k: nat,
) -> SearchView
    decreases 8 - k,
{
    if k >= 8 {
        v
    } else {
        let d = crate::astar::direction_order()[k as int];
        if d != own && d != own.rotated(4) {
            let tried = after_step_to_obstacle(v, model, f, cur, stride, d);
            if tried.1 {
                tried.0
            } else {
                first_other_step(v, model, f, cur, stride, own, k + 1)
            }
        } else {
            first_other_step(v, model, f, cur, stride, own, k + 1)
        }
    }
}

/// The direction in which a node goes on when nothing else offers: the
/// direction of the move that led to it, or up.
pub open spec fn own_direction(node: AstarNode) -> Direction {
    match node.direction {
        AStarNodeDirection::Planar(d) => d,
        _ => Direction::Up,
    }
}

/// The search after rule five, for a node on no grid line and at no
/// obstacle: the first whole step that is clear; else a step in the
/// node's own direction up to the obstacle; else such a step in the
/// first other direction, the way back left out, that leads anywhere.
pub open spec fn after_floating<F: Fn(FixedVec2, FixedVec2, usize) -> bool>(
    v: SearchView,
    model: &AStarModel,
    f: &F,
    cur: usize,
    settings: &AStarSettings,
) -> SearchView {
    let stride = settings.astar_stride@;
    let whole = first_clear_step(v, model, f, cur, stride, 0);
    if whole.1 {
        whole.0
    } else {
        let own = own_direction(v.nodes[cur as int]);
        let ahead = after_step_to_obstacle(v, model, f, cur, stride, own);
        if ahead.1 {
            ahead.0
        } else {
            first_other_step(v, model, f, cur, stride, own, 0)
        }
    }
}

/// The search after node `cur` was expanded by the five rules in turn.
/// Rule five applies where the node lies on no grid line and touches no
/// obstacle.
pub open spec fn after_expand<
    F: Fn(FixedVec2, FixedVec2, usize) -> bool,
    G: Fn(FixedVec2, usize) -> bool,
>(v: SearchView, model: &AStarModel, f: &F, g: &G, cur: usize, settings: &AStarSettings) -> SearchView {
    let node = v.nodes[cur as int];
    let goal_aligned = model.end_alignment(node.position, node.layer).is_some();
    let v1 = after_end(v, model, f, cur);
    let v2 = after_vias(v1, model, g, cur, settings);
    let v3 = after_grid(v2, model, f, cur, settings, goal_aligned);
    let v4 = after_radial(v3, model, f, cur, settings, goal_aligned);
    if grid_targets(node.position, settings.astar_stride@).len() == 0
        && crate::astar::radial_list(f, node.position, node.layer, 8).len() == 0 {
        after_floating(v4, model, f, cur, settings)
    } else {
        v4
    }
}

/// One step from node `cur` in direction `d`, taken whole when the way
/// is clear. Returns whether it was taken.
fn step_if_clear<F: Fn(FixedVec2, FixedVec2, usize) -> bool>(
    s: &mut Search,
    model: &AStarModel,
    f: &F,
    cur: usize,
    settings: &AStarSettings,
    d: Direction,
) -> (r: bool)
    requires
        old(s).sound(model),
        cur < old(s).nodes@.len(),
        model.valid(),
        trace_oracle(f),
        valid_stride(settings.astar_stride@),
    ensures
        final(s).sound(model),
        final(s).extends(old(s)),
        (final(s)@, r) == after_clear_step(old(s)@, model, f, cur, settings.astar_stride@, d),
{
    let node = s.nodes[cur];
    proof {
        assert(linked(s.nodes@, cur as int));
    }
    if node.position.is_x_odd_y_odd() && !d.is_diagonal() {
        return false;
    }
    let dest = to_nearest_one_step_point(&node.position, d, settings.astar_stride);
    assert(dest == point_of(dest@));
    if !within(dest) || ask(f, node.position, dest, node.layer) {
        return false;
    }
    push_planar(s, model, cur, d, dest);
    true
}

/// One step from node `cur` in direction `d`, as far as the way is
/// clear. Returns whether it led anywhere.
fn step_to_obstacle<F: Fn(FixedVec2, FixedVec2, usize) -> bool>(
    s: &mut Search,
    model: &AStarModel,
    f: &F,
    cur: usize,
    settings: &AStarSettings,
    d: Direction,
) -> (r: bool)
    requires
        old(s).sound(model),
        cur < old(s).nodes@.len(),
        model.valid(),
        trace_oracle(f),
        valid_stride(settings.astar_stride@),
    ensures
        final(s).sound(model),
        final(s).extends(old(s)),
        (final(s)@, r) == after_step_to_obstacle(old(s)@, model, f, cur, settings.astar_stride@, d),
{
    let node = s.nodes[cur];
    proof {
        assert(linked(s.nodes@, cur as int));
    }
    let dest = to_nearest_one_step_point(&node.position, d, settings.astar_stride);
    assert(dest == point_of(dest@));
    push_move(s, model, f, cur, d, dest, true)
}

/// Where no whole step is clear, the search stays as it is.
proof fn lemma_no_clear_step<F: Fn(FixedVec2, FixedVec2, usize) -> bool>(
    v: SearchView,
    model: &AStarModel,
    f: &F,
    cur: usize,
    stride: int,
    k: nat,
)
    requires
        !first_clear_step(v, model, f, cur, stride, k).1,
    ensures
        first_clear_step(v, model, f, cur, stride, k).0 == v,
    decreases 8 - k,
{
    if k < 8 {
        lemma_no_clear_step(v, model, f, cur, stride, k + 1);
    }
}

/// Takes the first whole step that is clear. Returns whether there was
/// one.
fn take_first_clear_step<F: Fn(FixedVec2, FixedVec2, usize) -> bool>(
    s: &mut Search,
    model: &AStarModel,
    f: &F,
    cur: usize,
    settings: &AStarSettings,
) -> (r: bool)
    requires
        old(s).sound(model),
        cur < old(s).nodes@.len(),
        model.valid(),
        trace_oracle(f),
        valid_stride(settings.astar_stride@),
    ensures
        final(s).sound(model),
        final(s).extends(old(s)),
        (final(s)@, r) == first_clear_step(old(s)@, model, f, cur, settings.astar_stride@, 0),
{
    let all = Direction::all_directions();
    assert(all@ == crate::astar::direction_order());
    let mut k: usize = 0;
    while k < all.len()
        invariant
            s@ == old(s)@,
            s.sound(model),
            s.extends(old(s)),
            cur < s.nodes@.len(),
            model.valid(),
            trace_oracle(f),
            valid_stride(settings.astar_stride@),
            all@ == crate::astar::direction_order(),
            k <= 8,
            first_clear_step(s@, model, f, cur, settings.astar_stride@, k as nat)
                == first_clear_step(old(s)@, model, f, cur, settings.astar_stride@, 0),
        decreases all@.len() - k,
    {
        if step_if_clear(s, model, f, cur, settings, all[k]) {
            return true;
        }
        k = k + 1;
    }
    false
}

/// Takes the first step that leads anywhere among the directions other
/// than `own` and the way back.
fn take_first_other_step<F: Fn(FixedVec2, FixedVec2, usize) -> bool>(
    s: &mut Search,
    model: &AStarModel,
    f: &F,
    cur: usize,
    settings: &AStarSettings,
    own: Direction,
)
    requires
        old(s).sound(model),
        cur < old(s).nodes@.len(),
        model.valid(),
        trace_oracle(f),
        valid_stride(settings.astar_stride@),
    ensures
        final(s).sound(model),
        final(s).extends(old(s)),
        final(s)@ == first_other_step(old(s)@, model, f, cur, settings.astar_stride@, own, 0),
{
    let all = Direction::all_directions();
    assert(all@ == crate::astar::direction_order());
    let back = own.opposite();
    let mut k: usize = 0;
    while k < all.len()
        invariant
            s@ == old(s)@,
            s.sound(model),
            s.extends(old(s)),
            cur < s.nodes@.len(),
            model.valid(),
            trace_oracle(f),
            valid_stride(settings.astar_stride@),
            all@ == crate::astar::direction_order(),
            back == own.rotated(4),
            k <= 8,
            first_other_step(s@, model, f, cur, settings.astar_stride@, own, k as nat)
                == first_other_step(old(s)@, model, f, cur, settings.astar_stride@, own, 0),
        decreases all@.len() - k,
    {
        let d = all[k];
        if d != own && d != back {
            if step_to_obstacle(s, model, f, cur, settings, d) {
                return ;
            }
        }
        k = k + 1;
    }
}

/// Rule five, for a node on no grid line and at no obstacle: the first
/// whole step that is clear; else a step in the node's own direction up
/// to the obstacle; else such a step in the first other direction, the
/// way back left out, that leads anywhere.
fn expand_floating<F: Fn(FixedVec2, FixedVec2, usize) -> bool>(
    s: &mut Search,
    model: &AStarModel,
    f: &F,
    cur: usize,
    settings: &AStarSettings,
)
    requires
        old(s).sound(model),
        cur < old(s).nodes@.len(),
        model.valid(),
        trace_oracle(f),
        valid_stride(settings.astar_stride@),
    ensures
        final(s).sound(model),
        final(s).extends(old(s)),
        final(s)@ == after_floating(old(s)@, model, f, cur, settings),
{
    let node = s.nodes[cur];
    if take_first_clear_step(s, model, f, cur, settings) {
        return ;
    }
    proof {
        lemma_no_clear_step(old(s)@, model, f, cur, settings.astar_stride@, 0);
    }
    let own = match node.direction {
        AStarNodeDirection::Planar(d) => d,
        _ => Direction::Up,
    };
    if step_to_obstacle(s, model, f, cur, settings, own) {
        return ;
    }
    take_first_other_step(s, model, f, cur, settings, own);
}

/// The nodes that follow node `cur`, by the five rules in turn.
fn expand<F: Fn(FixedVec2, FixedVec2, usize) -> bool, G: Fn(FixedVec2, usize) -> bool>(
    s: &mut Search,
    model: &AStarModel,
    f: &F,
    g: &G,
    cur: usize,
    settings: &AStarSettings,
)
    requires
        old(s).sound(model),
        cur < old(s).nodes@.len(),
        model.valid(),
        trace_oracle(f),
        via_oracle(g),
        valid_stride(settings.astar_stride@),
    ensures
        final(s).sound(model),
        final(s).extends(old(s)),
        final(s)@ == after_expand(old(s)@, model, f, g, cur, settings),
{
    let goal_aligned = expand_end(s, model, f, cur);
    expand_vias(s, model, g, cur, settings);
    let on_grid_line = expand_grid(s, model, f, cur, settings, goal_aligned);
    let at_obstacle = expand_radial(s, model, f, cur, settings, goal_aligned);
    if !on_grid_line && !at_obstacle {
        expand_floating(s, model, f, cur, settings);
    }
}

/// How a search ends.
pub enum SearchEnd {
    /// Node `goal` of `nodes` stands at the goal.
    Found { goal: usize, nodes: Seq<AstarNode> },
    BudgetExceeded,
    NoPath,
}

/// The key of a node.
pub open spec fn key_of(node: AstarNode) -> AstarNodeKey {
    AstarNodeKey { position: node.position, layer: node.layer }
}

/// The search with start nodes on the first `k` start layers waiting.
pub open spec fn started(model: &AStarModel, k: nat) -> SearchView
    decreases k,
{
    if k == 0 {
        SearchView { nodes: Seq::empty(), frontier: Seq::empty(), visited: Seq::empty() }
    } else {
        waits(
            started(model, (k - 1) as nat),
            start_node(
                model,
                (model.start_layers.first_layer(model.num_layers as int) + k - 1) as usize,
            ),
        )
    }
}

/// How many start layers the model has.
pub open spec fn start_count(model: &AStarModel) -> nat {
    (model.start_layers.end_layer(model.num_layers as int) - model.start_layers.first_layer(
        model.num_layers as int,
    )) as nat
}

/// How the search goes on from `v` when it may expand `left` more nodes
/// and is never asked to stop. The first cheapest waiting node is taken.
/// If it stands at the goal on a layer on which the goal can be reached,
/// it is found. If its key is visited, it is dropped. Else, if no node
/// may be expanded any more, the budget is exceeded; else its key is
/// visited and the node is expanded. Without a waiting node there is no
/// path.
#[verifier::opaque]
pub open spec fn search_on<
    F: Fn(FixedVec2, FixedVec2, usize) -> bool,
    G: Fn(FixedVec2, usize) -> bool,
>(v: SearchView, model: &AStarModel, f: &F, g: &G, settings: &AStarSettings, left: nat) -> SearchEnd
    decreases left, v.frontier.len(),
{
    let idx = best_waiting(v.frontier, v.frontier.len());
    if v.frontier.len() == 0 || !(0 <= idx < v.frontier.len()) {
        SearchEnd::NoPath
    } else {
        let item = v.frontier[idx];
        let node = v.nodes[item.node as int];
        let rest = SearchView { nodes: v.nodes, frontier: v.frontier.remove(idx), visited: v.visited };
        if node.position == model.end && model.end_layers.has(
            node.layer as int,
            model.num_layers as int,
        ) {
            SearchEnd::Found { goal: item.node, nodes: v.nodes }
        } else if v.visited.contains(key_of(node)) {
            search_on(rest, model, f, g, settings, left)
        } else if left == 0 {
            SearchEnd::BudgetExceeded
        } else {
            search_on(
                after_expand(
                    SearchView {
                        nodes: rest.nodes,
                        frontier: rest.frontier,
                        visited: rest.visited.push(key_of(node)),
                    },
                    model,
                    f,
                    g,
                    item.node,
                    settings,
                ),
                model,
                f,
                g,
                settings,
                (left - 1) as nat,
            )
        }
    }
}

/// The anchors of the path returned for node `goal`: those of the way to
/// the node after post-processing, or, where post-processing leaves two
/// consecutive anchors at one position, as found.
pub open spec fn found_anchors<F: Fn(FixedVec2, FixedVec2, usize) -> bool>(
    f: &F,
    nodes: Seq<AstarNode>,
    goal: usize,
    max_rewrites: usize,
) -> Seq<TraceAnchor> {
    let raw = crate::search_tree::path_anchors(nodes, chain(nodes, goal as int));
    let better = crate::post_process::optimized(f, raw, max_rewrites as nat);
    if no_empty_step(better) {
        better
    } else {
        raw
    }
}

/// Whether `r` is the result of a search that ends as `end`.
pub open spec fn is_result_of<F: Fn(FixedVec2, FixedVec2, usize) -> bool>(
    f: &F,
    end: SearchEnd,
    max_rewrites: usize,
    r: Result<AStarResult, AStarError>,
) -> bool {
    match end {
        SearchEnd::Found { goal, nodes } => r.is_ok() && r.unwrap().trace_path.anchors@
            == found_anchors(f, nodes, goal, max_rewrites),
        SearchEnd::BudgetExceeded => r == Err::<AStarResult, AStarError>(
            AStarError::BudgetExceeded,
        ),
        SearchEnd::NoPath => r == Err::<AStarResult, AStarError>(AStarError::NoPath),
    }
}

/// Whether `path` is a path of the model: its anchors lead from the
/// start, on one of the start layers, to the goal; consecutive anchors
/// are linked by layer and lie in one of the eight directions from each
/// other; it ends on a layer on which the goal can be reached; and its
/// segments, vias and length follow from its anchors.
pub open spec fn is_route(model: &AStarModel, path: &TracePath) -> bool {
    let a = path.anchors@;
    &&& a.len() >= 1
    &&& valid_path(a)
    &&& no_empty_step(a)
    &&& a.first().position == model.start
    &&& model.start_layers.has(a.first().start_layer as int, model.num_layers as int)
    &&& a.last().position == model.end
    &&& model.end_layers.has(a.last().end_layer as int, model.num_layers as int)
    &&& path.segments@ == segments_of(a, model.trace_width, model.trace_clearance)
    &&& path.vias@ == vias_of(a, model.via_diameter, model.trace_clearance)
    &&& path.total_length.straight == straight_of(a, (a.len() - 1) as nat)
    &&& path.total_length.diagonal == diagonal_of(a, (a.len() - 1) as nat)
}

/// Whether no two consecutive anchors share their position.
fn has_no_empty_step(anchors: &Vec<TraceAnchor>) -> (r: bool)
    ensures
        r == no_empty_step(anchors@),
{
    let n = anchors.len();
    if n < 2 {
        return true;
    }
    let mut k: usize = 0;
    while k < n - 1
        invariant
            n == anchors@.len(),
            n >= 2,
            k <= n - 1,
            forall|i: int| 0 <= i < k ==> !#[trigger] step_empty(anchors@, i),
        decreases n - k,
    {
        if anchors[k].position == anchors[k + 1].position {
            assert(step_empty(anchors@, k as int));
            return false;
        }
        k = k + 1;
    }
    true
}

/// The path to the goal node `goal`, shortened where the oracle allows;
/// the path as found where shortening leaves two consecutive anchors at
/// one position.
fn finish<F: Fn(FixedVec2, FixedVec2, usize) -> bool, G: Fn(FixedVec2, usize) -> bool>(
    s: &Search,
    model: &AStarModel,
    f: &F,
    g: &G,
    goal: usize,
    settings: &AStarSettings,
) -> (r: TracePath)
    requires
        s.sound(model),
        goal < s.nodes@.len(),
        s.nodes@[goal as int].position == model.end,
        model.end_layers.has(s.nodes@[goal as int].layer as int, model.num_layers as int),
        trace_oracle(f),
        clear_under(f, g, s.nodes@),
    ensures
        is_route(model, &r),
        r.anchors@ == found_anchors(f, s.nodes@, goal, settings.max_rewrites),
        geometric(f) ==> path_clear(f, g, r@, model.num_layers),
{
    proof {
        lemma_way(s.nodes@, goal as int);
        if geometric(f) {
            lemma_way_is_clear(f, g, s.nodes@, goal as int);
        }
    }
    let raw = AstarNode::to_trace_path(
        &s.nodes,
        goal,
        model.trace_width,
        model.trace_clearance,
        model.via_diameter,
    );
    let better = optimize_path(
        &raw,
        f,
        model.trace_width,
        model.trace_clearance,
        model.via_diameter,
        settings.max_rewrites,
    );
    proof {
        if geometric(f) {
            lemma_path_is_clear(f, g, raw@, model.num_layers);
            lemma_path_is_clear(f, g, better@, model.num_layers);
        }
    }
    if has_no_empty_step(&better.anchors.0) {
        better
    } else {
        raw
    }
}

/// What became of the node taken from the frontier.
enum Taken {
    /// The node stands at the goal.
    Goal(usize),
    /// The key of the node was visited before.
    Dropped,
    /// The node would have to be expanded, and no node may be any more.
    OverBudget,
    /// The node was expanded.
    Expanded,
}

/// The node that is taken next from a frontier that is not empty.
pub open spec fn next_taken(v: SearchView) -> usize {
    v.frontier[best_waiting(v.frontier, v.frontier.len())].node
}

/// Takes the first cheapest waiting node and deals with it.
fn take_next<F: Fn(FixedVec2, FixedVec2, usize) -> bool, G: Fn(FixedVec2, usize) -> bool>(
    s: &mut Search,
    model: &AStarModel,
    f: &F,
    g: &G,
    settings: &AStarSettings,
    left: usize,
) -> (r: Taken)
    requires
        old(s).sound(model),
        old(s).frontier@.len() > 0,
        model.valid(),
        trace_oracle(f),
        via_oracle(g),
        valid_stride(settings.astar_stride@),
    ensures
        final(s).sound(model),
        !(r is Expanded) ==> final(s).frontier@.len() < old(s).frontier@.len(),
        match r {
            Taken::Goal(goal) => goal == next_taken(old(s)@) && goal < final(s).nodes@.len()
                && final(s).nodes@ == old(s).nodes@ && final(s).nodes@[goal as int].position
                == model.end && model.end_layers.has(
                final(s).nodes@[goal as int].layer as int,
                model.num_layers as int,
            ) && search_on(old(s)@, model, f, g, settings, left as nat) == (SearchEnd::Found {
                goal,
                nodes: old(s).nodes@,
            }),
            Taken::Dropped => search_on(
                old(s)@,
                model,
                f,
                g,
                settings,
                left as nat,
            ) == search_on(final(s)@, model, f, g, settings, left as nat),
            Taken::OverBudget => left == 0 && search_on(old(s)@, model, f, g, settings, left as nat)
                == SearchEnd::BudgetExceeded,
            Taken::Expanded => left > 0 && search_on(old(s)@, model, f, g, settings, left as nat)
                == search_on(final(s)@, model, f, g, settings, (left - 1) as nat),
        },
        !(r is Goal) ==> !(old(s).nodes@[next_taken(old(s)@) as int].position == model.end
            && model.end_layers.has(
            old(s).nodes@[next_taken(old(s)@) as int].layer as int,
            model.num_layers as int,
        )),
        clear_under(f, g, old(s).nodes@) ==> clear_under(f, g, final(s).nodes@),
{
    proof {
        reveal(search_on);
    }
    let item = pop_min(&mut s.frontier);
    let node = s.nodes[item.node];
    if node.position == model.end && model.end_layers.contains(node.layer, model.num_layers) {
        return Taken::Goal(item.node);
    }
    let key = node.key();
    assert(key == key_of(node));
    if is_visited(&s.visited, key) {
        return Taken::Dropped;
    }
    if left == 0 {
        return Taken::OverBudget;
    }
    s.visited.push(key);
    let ghost before = s@;
    expand(s, model, f, g, item.node, settings);
    proof {
        if geometric(f) && tree_clear(f, g, before.nodes) {
            lemma_expand_keeps_clear(f, g, before, model, item.node, settings);
        }
    }
    Taken::Expanded
}

/// The search with a start node waiting on each start layer.
fn start_search(model: &AStarModel) -> (s: Search)
    requires
        model.valid(),
    ensures
        s.sound(model),
        s@ == started(model, start_count(model)),
{
    let mut s = Search { nodes: Vec::new(), frontier: Vec::new(), visited: Vec::new() };
    let layers = model.start_layers.get_iter(model.num_layers);
    let mut k: usize = 0;
    while k < layers.len()
        invariant
            model.valid(),
            s.sound(model),
            k <= layers@.len(),
            layers@.len() == start_count(model),
            forall|t: int|
                0 <= t < layers@.len() ==> #[trigger] layers@[t]
                    == model.start_layers.first_layer(model.num_layers as int) + t,
            s@ == started(model, k as nat),
        decreases layers@.len() - k,
    {
        push_start(&mut s, model, layers[k]);
        k = k + 1;
    }
    s
}

/// Without a waiting node there is no path.
proof fn lemma_nothing_waits<
    F: Fn(FixedVec2, FixedVec2, usize) -> bool,
    G: Fn(FixedVec2, usize) -> bool,
>(v: SearchView, model: &AStarModel, f: &F, g: &G, settings: &AStarSettings, left: nat)
    requires
        v.frontier.len() == 0,
    ensures
        search_on(v, model, f, g, settings, left) == SearchEnd::NoPath,
{
    reveal(search_on);
}

/// Where the loop of a search stands.
enum Loop {
    Running,
    AtGoal(usize),
    OverBudget,
    Stopped,
}

/// Takes waiting nodes until one stands at the goal, the budget is
/// exceeded, no node is left, or a stop is requested.
fn search_loop<
    F: Fn(FixedVec2, FixedVec2, usize) -> bool,
    G: Fn(FixedVec2, usize) -> bool,
    S: Fn() -> bool,
>(
    start: Search,
    model: &AStarModel,
    f: &F,
    g: &G,
    stop_requested: &S,
    settings: &AStarSettings,
) -> (r: Result<AStarResult, AStarError>)
    requires
        start.sound(model),
        model.valid(),
        valid_stride(settings.astar_stride@),
        trace_oracle(f),
        via_oracle(g),
        call_requires(stop_requested, ()),
        clear_under(f, g, start.nodes@),
    ensures
        match r {
            Ok(found) => is_route(model, &found.trace_path) && (geometric(f) ==> path_clear(
                f,
                g,
                found.trace_path@,
                model.num_layers,
            )),
            Err(AStarError::Cancelled) => call_ensures(stop_requested, (), true),
            Err(_) => true,
        },
        !call_ensures(stop_requested, (), true) ==> is_result_of(
            f,
            search_on(start@, model, f, g, settings, settings.astar_max_expansions as nat),
            settings.max_rewrites,
            r,
        ),
{
    let mut s = start;
    let mut left = settings.astar_max_expansions;
    let mut state = Loop::Running;
    let ghost target = search_on(
        start@,
        model,
        f,
        g,
        settings,
        settings.astar_max_expansions as nat,
    );
    while still_running(&state, &s)
        invariant
            model.valid(),
            valid_stride(settings.astar_stride@),
            trace_oracle(f),
            via_oracle(g),
            call_requires(stop_requested, ()),
            s.sound(model),
            clear_under(f, g, s.nodes@),
            match state {
                Loop::Running => search_on(s@, model, f, g, settings, left as nat) == target,
                Loop::AtGoal(goal) => goal < s.nodes@.len() && s.nodes@[goal as int].position
                    == model.end && model.end_layers.has(
                    s.nodes@[goal as int].layer as int,
                    model.num_layers as int,
                ) && target == (SearchEnd::Found { goal, nodes: s.nodes@ }),
                Loop::OverBudget => target == SearchEnd::BudgetExceeded,
                Loop::Stopped => call_ensures(stop_requested, (), true),
            },
        decreases left, s.frontier@.len(), if state is Running { 1nat } else { 0nat },
    {
        if stop_requested() {
            state = Loop::Stopped;
        } else {
            match take_next(&mut s, model, f, g, settings, left) {
                Taken::Goal(goal) => {
                    state = Loop::AtGoal(goal);
                },
                Taken::Dropped => {},
                Taken::OverBudget => {
                    state = Loop::OverBudget;
                },
                Taken::Expanded => {
                    left = left - 1;
                },
            }
        }
    }
    match state {
        Loop::Running => {
            proof {
                lemma_nothing_waits(s@, model, f, g, settings, left as nat);
            }
            Err(AStarError::NoPath)
        },
        Loop::AtGoal(goal) => found(&s, model, f, g, goal, settings),
        Loop::OverBudget => Err(AStarError::BudgetExceeded),
        Loop::Stopped => Err(AStarError::Cancelled),
    }
}

/// Whether the loop of a search goes on.
fn still_running(state: &Loop, s: &Search) -> (r: bool)
    ensures
        r == (*state is Running && s.frontier@.len() > 0),
{
    match state {
        Loop::Running => s.frontier.len() > 0,
        _ => false,
    }
}

/// The result of a search that has found node `goal`.
fn found<F: Fn(FixedVec2, FixedVec2, usize) -> bool, G: Fn(FixedVec2, usize) -> bool>(
    s: &Search,
    model: &AStarModel,
    f: &F,
    g: &G,
    goal: usize,
    settings: &AStarSettings,
) -> (r: Result<AStarResult, AStarError>)
    requires
        s.sound(model),
        goal < s.nodes@.len(),
        s.nodes@[goal as int].position == model.end,
        model.end_layers.has(s.nodes@[goal as int].layer as int, model.num_layers as int),
        trace_oracle(f),
        clear_under(f, g, s.nodes@),
    ensures
        r.is_ok(),
        is_route(model, &r.unwrap().trace_path),
        is_result_of(f, SearchEnd::Found { goal, nodes: s.nodes@ }, settings.max_rewrites, r),
        geometric(f) ==> path_clear(f, g, r.unwrap().trace_path@, model.num_layers),
{
    let path = finish(s, model, f, g, goal, settings);
    Ok(AStarResult { trace_path: path })
}

/// All start nodes cost the same, and the first of them stands on the
/// first start layer.
proof fn lemma_started(model: &AStarModel, k: nat)
    requires
        k <= start_count(model),
        model.num_layers >= 1,
    ensures
        started(model, k).nodes.len() == k,
        started(model, k).frontier.len() == k,
        started(model, k).visited.len() == 0,
        forall|t: int|
            0 <= t < k ==> (#[trigger] started(model, k).frontier[t]).total_cost == way_cost(
                model.start,
                model.end,
            ) && started(model, k).frontier[t].node == t,
        k >= 1 ==> started(model, k).nodes[0] == start_node(
            model,
            model.start_layers.first_layer(model.num_layers as int) as usize,
        ),
    decreases k,
{
    if k > 0 {
        lemma_started(model, (k - 1) as nat);
    }
}

/// A search whose start is its goal, on a layer on which the goal can
/// be reached, finds the first start node at once, and the path has that
/// one anchor.
pub proof fn lemma_already_there<
    F: Fn(FixedVec2, FixedVec2, usize) -> bool,
    G: Fn(FixedVec2, usize) -> bool,
>(model: &AStarModel, f: &F, g: &G, settings: &AStarSettings)
    requires
        model.valid(),
        already_there(model),
    ensures
        search_on(
            started(model, start_count(model)),
            model,
            f,
            g,
            settings,
            settings.astar_max_expansions as nat,
        ) == (SearchEnd::Found { goal: 0, nodes: started(model, start_count(model)).nodes }),
        found_anchors(f, started(model, start_count(model)).nodes, 0, settings.max_rewrites)
            == seq![
            lone_anchor(
                model.start,
                model.start_layers.first_layer(model.num_layers as int) as usize,
            ),
        ],
{
    reveal(search_on);
    let count = start_count(model);
    let v = started(model, count);
    lemma_started(model, count);
    assert(count >= 1);
    lemma_best_waiting(v.frontier, v.frontier.len());
    let idx = best_waiting(v.frontier, v.frontier.len());
    if idx > 0 {
        assert(v.frontier[idx].total_cost < v.frontier[0].total_cost);
    }
    assert(idx == 0);
    let node = v.nodes[0];
    let c = chain(v.nodes, 0);
    assert(c == seq![0int]);
    assert(c.drop_last() =~= Seq::<int>::empty());
    assert(crate::search_tree::path_anchors(v.nodes, Seq::<int>::empty())
        =~= Seq::<TraceAnchor>::empty());
    let lone = lone_anchor(node.position, node.layer);
    assert(crate::search_tree::path_anchors(v.nodes, c) =~= seq![lone]);
    crate::post_process::lemma_lone_anchor_settled(f, lone);
    crate::post_process::lemma_settled_is_fixed(f, seq![lone], settings.max_rewrites as nat);
    assert(no_empty_step(seq![lone]));
}

impl AStarModel {
    /// Searches for a path from the start to the goal. Start nodes on all
    /// start layers wait first; the loop then takes the cheapest waiting
    /// node, returns the shortened path to it if it stands at the goal on
    /// a layer on which the goal can be reached, and else marks it
    /// visited and lets the nodes that follow it wait. The search is
    /// cancelled when `stop_requested` says so before a node is taken,
    /// gives up when it would expand more nodes than the settings allow,
    /// and finds no path when no node is left. Under a geometric trace
    /// oracle the path returned passes the check against both oracles:
    /// the search adds no move and no change of layer that they report
    /// blocked, and shortening keeps every step clear.
    pub fn run<
        F: Fn(FixedVec2, FixedVec2, usize) -> bool,
        G: Fn(FixedVec2, usize) -> bool,
        S: Fn() -> bool,
    >(
        &self,
        check_collision_for_trace: &F,
        check_collision_for_via: &G,
        stop_requested: &S,
        settings: &AStarSettings,
    ) -> (r: Result<AStarResult, AStarError>)
        requires
            self.valid(),
            valid_stride(settings.astar_stride@),
            trace_oracle(check_collision_for_trace),
            via_oracle(check_collision_for_via),
            call_requires(stop_requested, ()),
        ensures
            match r {
                Ok(found) => is_route(self, &found.trace_path) && (geometric(
                    check_collision_for_trace,
                ) ==> path_clear(
                    check_collision_for_trace,
                    check_collision_for_via,
                    found.trace_path@,
                    self.num_layers,
                )),
                Err(AStarError::Cancelled) => call_ensures(stop_requested, (), true),
                Err(_) => true,
            },
            !call_ensures(stop_requested, (), false) ==> r == Err::<AStarResult, AStarError>(
                AStarError::Cancelled,
            ),
            !call_ensures(stop_requested, (), true) ==> is_result_of(
                check_collision_for_trace,
                search_on(
                    started(self, start_count(self)),
                    self,
                    check_collision_for_trace,
                    check_collision_for_via,
                    settings,
                    settings.astar_max_expansions as nat,
                ),
                settings.max_rewrites,
                r,
            ),
            already_there(self) && !call_ensures(stop_requested, (), true) ==> r.is_ok()
                && r.unwrap().trace_path.anchors@ == seq![
                lone_anchor(
                    self.start,
                    self.start_layers.first_layer(self.num_layers as int) as usize,
                ),
            ],
    {
        if stop_requested() {
            return Err(AStarError::Cancelled);
        }
        let s = start_search(self);
        proof {
            lemma_started_clear(
                check_collision_for_trace,
                check_collision_for_via,
                self,
                start_count(self),
            );
            if already_there(self) {
                lemma_already_there(
                    self,
                    check_collision_for_trace,
                    check_collision_for_via,
                    settings,
                );
            }
        }
        search_loop(
            s,
            self,
            check_collision_for_trace,
            check_collision_for_via,
            stop_requested,
            settings,
        )
    }
}

/// Every segment of a path of the model runs in one of the eight
/// directions, over at least one tick.
pub proof fn lemma_route_segments_directed(model: &AStarModel, path: &TracePath, i: int)
    requires
        is_route(model, path),
        0 <= i < path.segments@.len(),
    ensures
        path.segments@[i].start != path.segments@[i].end,
        aligned(
            path.segments@[i].end.x@ - path.segments@[i].start.x@,
            path.segments@[i].end.y@ - path.segments@[i].start.y@,
        ),
        heads(
            path.segments@[i].start,
            path.segments@[i].end,
            direction_of(
                path.segments@[i].end.x@ - path.segments@[i].start.x@,
                path.segments@[i].end.y@ - path.segments@[i].start.y@,
            ),
        ),
{
    let a = path.anchors@;
    assert(crate::post_process::step_aligned(a, i));
    assert(!step_empty(a, i));
}

/// In a path of the model, each anchor leaves on the layer on which the
/// next one arrives, and each segment lies on that layer.
pub proof fn lemma_route_layers_linked(model: &AStarModel, path: &TracePath, i: int)
    requires
        is_route(model, path),
        0 <= i < path.anchors@.len() - 1,
    ensures
        path.anchors@[i].end_layer == path.anchors@[i + 1].start_layer,
        path.segments@[i].layer == path.anchors@[i].end_layer,
        layers_linked(path.anchors@),
{
}


/// Whether `w` has the nodes of `v` and possibly more, and the nodes of
/// both are sound trees.
pub open spec fn grown(v: SearchView, w: SearchView) -> bool {
    &&& tree_ok(v.nodes)
    &&& tree_ok(w.nodes)
    &&& w.nodes.len() >= v.nodes.len()
    &&& forall|k: int| 0 <= k < v.nodes.len() ==> w.nodes[k] == v.nodes[k]
}

/// A further node that is linked, within the coordinate limit and on the
/// even-sum lattice keeps the nodes a sound tree.
pub proof fn lemma_waits_grown(v: SearchView, node: AstarNode)
    requires
        tree_ok(v.nodes),
        linked(v.nodes.push(node), v.nodes.len() as int),
        in_range(node.position@),
        !is_odd(node.position.x@ + node.position.y@),
    ensures
        grown(v, waits(v, node)),
{
    let w = waits(v, node);
    assert forall|k: int| 0 <= k < w.nodes.len() implies #[trigger] linked(w.nodes, k) && in_range(
        w.nodes[k].position@,
    ) && !is_odd(w.nodes[k].position.x@ + w.nodes[k].position.y@) by {
        if k < v.nodes.len() {
            assert(linked(v.nodes, k));
        }
    }
}

/// Growing twice is growing.
pub proof fn lemma_grown_twice(u: SearchView, v: SearchView, w: SearchView)
    requires
        grown(u, v),
        grown(v, w),
    ensures
        grown(u, w),
{
}

/// Offering a move or a change of layer keeps the nodes a sound tree.
pub proof fn lemma_offers_keep_tree(
    v: SearchView,
    model: &AStarModel,
    parent: usize,
    d: Direction,
    to: FixedVec2,
    to_layer: usize,
    via_cost: u64,
)
    requires
        tree_ok(v.nodes),
        parent < v.nodes.len(),
    ensures
        grown(v, with_planar(v, model, parent, d, to)),
        grown(v, with_vertical(v, model, parent, to_layer, via_cost)),
{
    let from = v.nodes[parent as int];
    assert(linked(v.nodes, parent as int));
    if with_planar(v, model, parent, d, to) != v {
        lemma_waits_grown(v, planar_node(model, from, parent, d, to));
    }
    if with_vertical(v, model, parent, to_layer, via_cost) != v {
        lemma_waits_grown(v, vertical_node(model, from, parent, to_layer, via_cost));
    }
}

/// Offering the layers below keeps the nodes a sound tree.
pub proof fn lemma_vias_down_tree<G: Fn(FixedVec2, usize) -> bool>(
    v: SearchView,
    model: &AStarModel,
    g: &G,
    cur: usize,
    position: FixedVec2,
    cost: u64,
    lower: nat,
)
    requires
        tree_ok(v.nodes),
        cur < v.nodes.len(),
    ensures
        grown(v, vias_down(v, model, g, cur, position, cost, lower)),
    decreases lower,
{
    if lower > 0 && !via_blocked(g, position, (lower - 1) as usize) {
        let w = with_vertical(v, model, cur, (lower - 1) as usize, cost);
        lemma_offers_keep_tree(v, model, cur, Direction::Up, position, (lower - 1) as usize, cost);
        lemma_vias_down_tree(w, model, g, cur, position, cost, (lower - 1) as nat);
        lemma_grown_twice(v, w, vias_down(w, model, g, cur, position, cost, (lower - 1) as nat));
    }
}

/// Offering the layers above keeps the nodes a sound tree.
pub proof fn lemma_vias_up_tree<G: Fn(FixedVec2, usize) -> bool>(
    v: SearchView,
    model: &AStarModel,
    g: &G,
    cur: usize,
    position: FixedVec2,
    cost: u64,
    upper: nat,
)
    requires
        tree_ok(v.nodes),
        cur < v.nodes.len(),
    ensures
        grown(v, vias_up(v, model, g, cur, position, cost, upper)),
    decreases model.num_layers - upper,
{
    if upper < model.num_layers && !via_blocked(g, position, upper as usize) {
        let w = with_vertical(v, model, cur, upper as usize, cost);
        lemma_offers_keep_tree(v, model, cur, Direction::Up, position, upper as usize, cost);
        lemma_vias_up_tree(w, model, g, cur, position, cost, upper + 1);
        lemma_grown_twice(v, w, vias_up(w, model, g, cur, position, cost, upper + 1));
    }
}

/// A move keeps the nodes a sound tree.
pub proof fn lemma_move_tree<F: Fn(FixedVec2, FixedVec2, usize) -> bool>(
    v: SearchView,
    model: &AStarModel,
    f: &F,
    cur: usize,
    d: Direction,
    dest: FixedVec2,
    goal_aligned: bool,
)
    requires
        tree_ok(v.nodes),
        cur < v.nodes.len(),
    ensures
        grown(v, after_move(v, model, f, cur, d, dest, goal_aligned).0),
{
    let node = v.nodes[cur as int];
    match crate::astar::clamped(f, node.position, dest, node.layer) {
        None => {},
        Some(stop) => {
            let v1 = with_planar(v, model, cur, d, stop);
            lemma_offers_keep_tree(v, model, cur, d, stop, 0, 0);
            match crossing_on(model, node.position, stop, node.layer) {
                Some(q) => {
                    lemma_offers_keep_tree(v1, model, cur, d, q, 0, 0);
                    lemma_grown_twice(v, v1, with_planar(v1, model, cur, d, q));
                },
                None => {},
            }
        },
    }
}

/// A list of moves keeps the nodes a sound tree.
pub proof fn lemma_moves_tree<F: Fn(FixedVec2, FixedVec2, usize) -> bool>(
    v: SearchView,
    model: &AStarModel,
    f: &F,
    cur: usize,
    moves: Seq<(Direction, FixedVec2)>,
    goal_aligned: bool,
    k: nat,
)
    requires
        tree_ok(v.nodes),
        cur < v.nodes.len(),
    ensures
        grown(v, moves_made(v, model, f, cur, moves, goal_aligned, k)),
    decreases k,
{
    if k > 0 {
        let w = moves_made(v, model, f, cur, moves, goal_aligned, (k - 1) as nat);
        lemma_moves_tree(v, model, f, cur, moves, goal_aligned, (k - 1) as nat);
        lemma_move_tree(w, model, f, cur, moves[k - 1].0, moves[k - 1].1, goal_aligned);
        lemma_grown_twice(
            v,
            w,
            after_move(w, model, f, cur, moves[k - 1].0, moves[k - 1].1, goal_aligned).0,
        );
    }
}

/// The first whole step that is clear keeps the nodes a sound tree.
pub proof fn lemma_clear_steps_tree<F: Fn(FixedVec2, FixedVec2, usize) -> bool>(
    v: SearchView,
    model: &AStarModel,
    f: &F,
    cur: usize,
    stride: int,
    k: nat,
)
    requires
        tree_ok(v.nodes),
        cur < v.nodes.len(),
    ensures
        grown(v, first_clear_step(v, model, f, cur, stride, k).0),
    decreases 8 - k,
{
    if k < 8 {
        let d = crate::astar::direction_order()[k as int];
        let node = v.nodes[cur as int];
        lemma_offers_keep_tree(
            v,
            model,
            cur,
            d,
            point_of(crate::grid::one_step(node.position@, d, stride)),
            0,
            0,
        );
        lemma_clear_steps_tree(v, model, f, cur, stride, k + 1);
    }
}

/// The first other step that leads anywhere keeps the nodes a sound
/// tree.
pub proof fn lemma_other_steps_tree<F: Fn(FixedVec2, FixedVec2, usize) -> bool>(
    v: SearchView,
    model: &AStarModel,
    f: &F,
    cur: usize,
    stride: int,
    own: Direction,
    k: nat,
)
    requires
        tree_ok(v.nodes),
        cur < v.nodes.len(),
    ensures
        grown(v, first_other_step(v, model, f, cur, stride, own, k)),
    decreases 8 - k,
{
    if k < 8 {
        let d = crate::astar::direction_order()[k as int];
        let node = v.nodes[cur as int];
        lemma_move_tree(
            v,
            model,
            f,
            cur,
            d,
            point_of(crate::grid::one_step(node.position@, d, stride)),
            true,
        );
        lemma_other_steps_tree(v, model, f, cur, stride, own, k + 1);
    }
}

/// Expanding a node of a sound tree leaves a sound tree with the nodes
/// it had and possibly more: every node that the search adds lies within
/// the coordinate limit, has an even coordinate sum, and is linked to
/// the node it was reached from as its direction says.
pub proof fn lemma_expand_keeps_tree<
    F: Fn(FixedVec2, FixedVec2, usize) -> bool,
    G: Fn(FixedVec2, usize) -> bool,
>(v: SearchView, model: &AStarModel, f: &F, g: &G, cur: usize, settings: &AStarSettings)
    requires
        tree_ok(v.nodes),
        cur < v.nodes.len(),
    ensures
        grown(v, after_expand(v, model, f, g, cur, settings)),
{
    let node = v.nodes[cur as int];
    let goal_aligned = model.end_alignment(node.position, node.layer).is_some();
    let stride = settings.astar_stride@;
    let v1 = after_end(v, model, f, cur);
    lemma_offers_keep_tree(v, model, cur, Direction::Up, model.end, 0, 0);
    if model.end_alignment(node.position, node.layer).is_some() {
        lemma_offers_keep_tree(
            v,
            model,
            cur,
            model.end_alignment(node.position, node.layer).unwrap(),
            model.end,
            0,
            0,
        );
    }
    assert(grown(v, v1));
    let cost = via_cost_of(settings.via_cost);
    let down = vias_down(v1, model, g, cur, node.position, cost, node.layer as nat);
    lemma_vias_down_tree(v1, model, g, cur, node.position, cost, node.layer as nat);
    lemma_vias_up_tree(down, model, g, cur, node.position, cost, (node.layer + 1) as nat);
    let v2 = after_vias(v1, model, g, cur, settings);
    assert(v1.nodes[cur as int] == node);
    assert(grown(v1, v2));
    let grid = grid_targets(node.position, stride);
    assert(v2.nodes[cur as int] == node);
    lemma_moves_tree(v2, model, f, cur, grid, goal_aligned, grid.len());
    let v3 = after_grid(v2, model, f, cur, settings, goal_aligned);
    assert(grown(v2, v3));
    assert(v3.nodes[cur as int] == node);
    let radial = step_targets(
        node.position,
        crate::astar::radial_list(f, node.position, node.layer, 8),
        stride,
    );
    lemma_moves_tree(v3, model, f, cur, radial, goal_aligned, radial.len());
    let v4 = after_radial(v3, model, f, cur, settings, goal_aligned);
    assert(grown(v3, v4));
    assert(v4.nodes[cur as int] == node);
    lemma_clear_steps_tree(v4, model, f, cur, stride, 0);
    let own = own_direction(node);
    lemma_move_tree(
        v4,
        model,
        f,
        cur,
        own,
        point_of(crate::grid::one_step(node.position@, own, stride)),
        true,
    );
    lemma_other_steps_tree(v4, model, f, cur, stride, own, 0);
    assert(grown(v4, after_floating(v4, model, f, cur, settings)));
}

/// The start nodes of a valid model are a sound tree.
pub proof fn lemma_started_tree(model: &AStarModel, k: nat)
    requires
        model.valid(),
    ensures
        tree_ok(started(model, k).nodes),
    decreases k,
{
    if k > 0 {
        lemma_started_tree(model, (k - 1) as nat);
        let v = started(model, (k - 1) as nat);
        let node = start_node(
            model,
            (model.start_layers.first_layer(model.num_layers as int) + k - 1) as usize,
        );
        lemma_waits_grown(v, node);
    } else {
        assert(started(model, 0).nodes =~= Seq::<AstarNode>::empty());
    }
}

} // verus!
